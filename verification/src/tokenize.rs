//! Inline tokenization: one greedy left-to-right scan splits a line into
//! plain text, occurrences of the escalation keyword, and privileged
//! usernames.  A candidate substring grows while it could still become
//! the keyword or a username, closes into a highlighted span on an exact
//! match, and otherwise restarts at the current character.  Lines without
//! the keyword are returned whole as one plain span.

use crate::classify::lines_view;
use crate::text::{
    contains_seq, contains_sub, copy_range, eq_in_range, is_prefix_of, kw_sudo, kw_sudo_chars,
    range_is_prefix,
};
use vstd::prelude::*;

verus! {

/// The role of one run of characters.
#[derive(Clone, Copy, PartialEq, Eq, Debug)]
pub enum SpanRole {
    Plain,
    Keyword,
    Username,
}

/// One styled run of characters.
pub struct Span {
    pub text: Vec<char>,
    pub role: SpanRole,
}

/// Mathematical model of a span.
#[verifier::ext_equal]
pub struct SpanModel {
    pub text: Seq<char>,
    pub role: SpanRole,
}

impl View for Span {
    type V = SpanModel;

    open spec fn view(&self) -> SpanModel {
        SpanModel { text: self.text@, role: self.role }
    }
}

/// The models of a sequence of spans.
pub open spec fn spans_model(s: Seq<Span>) -> Seq<SpanModel> {
    s.map_values(|x: Span| x@)
}

/// A plain span holding `t`.
pub open spec fn plain_span(t: Seq<char>) -> SpanModel {
    SpanModel { text: t, role: SpanRole::Plain }
}

/// The plain span holding `line[fp..cs]`, when that range is nonempty.
pub open spec fn emit_plain(line: Seq<char>, fp: int, cs: int) -> Seq<SpanModel> {
    if fp < cs {
        seq![plain_span(line.subrange(fp, cs))]
    } else {
        Seq::empty()
    }
}

/// The candidate could still grow into one of the usernames.
pub open spec fn could_match_user(users: Seq<Seq<char>>, w: Seq<char>) -> bool {
    exists|k: int|
        0 <= k < users.len() && is_prefix_of(w, #[trigger] users[k]) && w.len() < users[k].len()
}

/// The spans produced by the scan from position `i` on, with the current
/// candidate `line[cs..=i]` and everything before `fp` already emitted.
pub open spec fn scan_spec(
    line: Seq<char>,
    users: Seq<Seq<char>>,
    i: int,
    cs: int,
    fp: int,
) -> Seq<SpanModel>
    decreases line.len() - i, i - cs,
{
    if !(0 <= fp <= cs <= i && i < line.len()) {
        // end of the line: flush the remaining text
        if 0 <= fp < line.len() {
            seq![plain_span(line.subrange(fp, line.len() as int))]
        } else {
            Seq::empty()
        }
    } else {
        let w = line.subrange(cs, i + 1);
        if w == kw_sudo() {
            emit_plain(line, fp, cs) + seq![
                (SpanModel { text: kw_sudo(), role: SpanRole::Keyword }),
            ] + scan_spec(line, users, i + 1, i + 1, i + 1)
        } else if is_prefix_of(w, kw_sudo()) {
            scan_spec(line, users, i + 1, cs, fp)
        } else if users.contains(w) {
            emit_plain(line, fp, cs) + seq![(SpanModel { text: w, role: SpanRole::Username })]
                + scan_spec(line, users, i + 1, i + 1, i + 1)
        } else if could_match_user(users, w) {
            scan_spec(line, users, i + 1, cs, fp)
        } else if cs < i {
            // the candidate cannot complete: restart it at the current character
            scan_spec(line, users, i, i, fp)
        } else {
            // a single character matches nothing: move past it, unflushed
            scan_spec(line, users, i + 1, i + 1, fp)
        }
    }
}

/// The spans of a full line: lines without the keyword skip the scan and
/// come back whole as a single plain span.
pub open spec fn tokenize_spec(line: Seq<char>, users: Seq<Seq<char>>) -> Seq<SpanModel> {
    if contains_seq(line, kw_sudo()) {
        scan_spec(line, users, 0, 0, 0)
    } else {
        seq![plain_span(line)]
    }
}

/// The concatenation of the span texts.
pub open spec fn concat_spans(s: Seq<SpanModel>) -> Seq<char>
    decreases s.len(),
{
    if s.len() == 0 {
        Seq::empty()
    } else {
        s.first().text + concat_spans(s.drop_first())
    }
}

proof fn lemma_concat_spans_empty()
    ensures
        concat_spans(Seq::<SpanModel>::empty()) == Seq::<char>::empty(),
{
}

proof fn lemma_concat_spans_one(m: SpanModel)
    ensures
        concat_spans(seq![m]) == m.text,
{
    lemma_concat_spans_empty();
    assert(seq![m].drop_first() =~= Seq::<SpanModel>::empty());
    assert(seq![m].first() == m);
    assert(concat_spans(seq![m]) =~= m.text);
}

/// Concatenation distributes over appending span sequences.
proof fn lemma_concat_spans_add(a: Seq<SpanModel>, b: Seq<SpanModel>)
    ensures
        concat_spans(a + b) == concat_spans(a) + concat_spans(b),
    decreases a.len(),
{
    if a.len() == 0 {
        assert(a + b =~= b);
        assert(concat_spans(a) + concat_spans(b) =~= concat_spans(b));
    } else {
        assert((a + b).first() == a.first());
        assert((a + b).drop_first() =~= a.drop_first() + b);
        lemma_concat_spans_add(a.drop_first(), b);
        assert(a.first().text + (concat_spans(a.drop_first()) + concat_spans(b)) =~= (a.first().text
            + concat_spans(a.drop_first())) + concat_spans(b));
    }
}

/// The scan reproduces every character from `fp` to the end of the line.
proof fn lemma_scan_concat(line: Seq<char>, users: Seq<Seq<char>>, i: int, cs: int, fp: int)
    requires
        0 <= fp <= cs <= i <= line.len(),
    ensures
        concat_spans(scan_spec(line, users, i, cs, fp)) == line.subrange(fp, line.len() as int),
    decreases line.len() - i, i - cs,
{
    let n = line.len() as int;
    if i >= n {
        if fp < n {
            let s = scan_spec(line, users, i, cs, fp);
            assert(s == seq![plain_span(line.subrange(fp, n))]);
            lemma_concat_spans_one(plain_span(line.subrange(fp, n)));
        } else {
            assert(line.subrange(fp, n) =~= Seq::<char>::empty());
        }
    } else {
        let w = line.subrange(cs, i + 1);
        if w == kw_sudo() || (!is_prefix_of(w, kw_sudo()) && users.contains(w)) {
            let m = if w == kw_sudo() {
                SpanModel { text: kw_sudo(), role: SpanRole::Keyword }
            } else {
                SpanModel { text: w, role: SpanRole::Username }
            };
            let rest = scan_spec(line, users, i + 1, i + 1, i + 1);
            assert(scan_spec(line, users, i, cs, fp) == emit_plain(line, fp, cs) + seq![m] + rest);
            lemma_scan_concat(line, users, i + 1, i + 1, i + 1);
            lemma_concat_spans_add(emit_plain(line, fp, cs) + seq![m], rest);
            lemma_concat_spans_add(emit_plain(line, fp, cs), seq![m]);
            lemma_concat_spans_one(m);
            if fp < cs {
                lemma_concat_spans_one(plain_span(line.subrange(fp, cs)));
            } else {
                lemma_concat_spans_empty();
                assert(emit_plain(line, fp, cs) =~= Seq::<SpanModel>::empty());
            }
            assert(m.text == line.subrange(cs, i + 1));
            assert(concat_spans(scan_spec(line, users, i, cs, fp)) =~= line.subrange(fp, n));
        } else if is_prefix_of(w, kw_sudo()) || could_match_user(users, w) {
            lemma_scan_concat(line, users, i + 1, cs, fp);
        } else if cs < i {
            lemma_scan_concat(line, users, i, i, fp);
        } else {
            lemma_scan_concat(line, users, i + 1, i + 1, fp);
        }
    }
}

/// The spans of a line always concatenate back to the line itself.
pub proof fn lemma_tokenize_concat(line: Seq<char>, users: Seq<Seq<char>>)
    ensures
        concat_spans(tokenize_spec(line, users)) == line,
{
    if contains_seq(line, kw_sudo()) {
        lemma_scan_concat(line, users, 0, 0, 0);
        assert(line.subrange(0, line.len() as int) =~= line);
    } else {
        lemma_concat_spans_one(plain_span(line));
    }
}

/// Every keyword span holds exactly the keyword, and every username span
/// holds one of the given usernames.
proof fn lemma_scan_roles(line: Seq<char>, users: Seq<Seq<char>>, i: int, cs: int, fp: int)
    ensures
        forall|k: int|
            0 <= k < scan_spec(line, users, i, cs, fp).len() ==> {
                let m = #[trigger] scan_spec(line, users, i, cs, fp)[k];
                &&& (m.role == SpanRole::Keyword ==> m.text == kw_sudo())
                &&& (m.role == SpanRole::Username ==> users.contains(m.text))
            },
    decreases line.len() - i, i - cs,
{
    let n = line.len() as int;
    if !(0 <= fp <= cs <= i && i < n) {
    } else {
        let w = line.subrange(cs, i + 1);
        if w == kw_sudo() || (!is_prefix_of(w, kw_sudo()) && users.contains(w)) {
            lemma_scan_roles(line, users, i + 1, i + 1, i + 1);
        } else if is_prefix_of(w, kw_sudo()) || could_match_user(users, w) {
            lemma_scan_roles(line, users, i + 1, cs, fp);
        } else if cs < i {
            lemma_scan_roles(line, users, i, i, fp);
        } else {
            lemma_scan_roles(line, users, i + 1, i + 1, fp);
        }
    }
}

/// Every span of a tokenized line is faithful to its role: keyword spans
/// hold exactly the keyword, and username spans hold one of the given
/// usernames.
pub proof fn lemma_tokenize_roles(line: Seq<char>, users: Seq<Seq<char>>)
    ensures
        forall|k: int|
            0 <= k < tokenize_spec(line, users).len() ==> {
                let m = #[trigger] tokenize_spec(line, users)[k];
                &&& (m.role == SpanRole::Keyword ==> m.text == kw_sudo())
                &&& (m.role == SpanRole::Username ==> users.contains(m.text))
            },
{
    if contains_seq(line, kw_sudo()) {
        lemma_scan_roles(line, users, 0, 0, 0);
    }
}

/// True when some username equals `line[a..b]`.
fn user_exact(users: &Vec<Vec<char>>, line: &Vec<char>, a: usize, b: usize) -> (r: bool)
    requires
        a <= b <= line@.len(),
    ensures
        r == lines_view(users@).contains(line@.subrange(a as int, b as int)),
{
    let ghost uv = lines_view(users@);
    let ghost w = line@.subrange(a as int, b as int);
    let mut k: usize = 0;
    while k < users.len()
        invariant
            k <= users@.len(),
            a <= b <= line@.len(),
            uv == lines_view(users@),
            w == line@.subrange(a as int, b as int),
            forall|q: int| 0 <= q < k ==> uv[q] != w,
        decreases users@.len() - k,
    {
        if eq_in_range(line, a, b, &users[k]) {
            proof {
                assert(uv[k as int] == w);
            }
            return true;
        }
        k += 1;
    }
    proof {
        if uv.contains(w) {
            let q = choose|q: int| 0 <= q < uv.len() && uv[q] == w;
            assert(uv[q] != w);
        }
    }
    false
}

/// True when `line[a..b]` is a proper prefix of some username.
fn user_could(users: &Vec<Vec<char>>, line: &Vec<char>, a: usize, b: usize) -> (r: bool)
    requires
        a <= b <= line@.len(),
    ensures
        r == could_match_user(lines_view(users@), line@.subrange(a as int, b as int)),
{
    let ghost uv = lines_view(users@);
    let ghost w = line@.subrange(a as int, b as int);
    let mut k: usize = 0;
    while k < users.len()
        invariant
            k <= users@.len(),
            a <= b <= line@.len(),
            uv == lines_view(users@),
            w == line@.subrange(a as int, b as int),
            forall|q: int|
                0 <= q < k ==> !(is_prefix_of(w, #[trigger] uv[q]) && w.len() < uv[q].len()),
        decreases users@.len() - k,
    {
        if range_is_prefix(line, a, b, &users[k]) && b - a < users[k].len() {
            proof {
                assert(is_prefix_of(w, uv[k as int]) && w.len() < uv[k as int].len());
            }
            return true;
        }
        k += 1;
    }
    proof {
        if could_match_user(uv, w) {
            let q = choose|q: int|
                0 <= q < uv.len() && is_prefix_of(w, #[trigger] uv[q]) && w.len() < uv[q].len();
            assert(!(is_prefix_of(w, uv[q]) && w.len() < uv[q].len()));
        }
    }
    false
}

/// Splits `line` into styled spans, marking the escalation keyword and
/// the given privileged usernames.  The spans concatenate back to the
/// line exactly; a line without the keyword is one plain span.
pub fn tokenize(line: &Vec<char>, users: &Vec<Vec<char>>) -> (r: Vec<Span>)
    ensures
        spans_model(r@) == tokenize_spec(line@, lines_view(users@)),
        !contains_seq(line@, kw_sudo()) ==> r@.len() == 1 && r@[0]@ == plain_span(line@),
{
    let kw = kw_sudo_chars();
    let ghost usersv = lines_view(users@);
    if !contains_sub(line, &kw) {
        let mut r: Vec<Span> = Vec::new();
        let text = copy_range(line, 0, line.len());
        proof {
            assert(text@ =~= line@);
        }
        r.push(Span { text, role: SpanRole::Plain });
        proof {
            assert(r@[0]@ =~= plain_span(line@));
            assert(spans_model(r@) =~= tokenize_spec(line@, usersv));
        }
        return r;
    }
    let n = line.len();
    let mut acc: Vec<Span> = Vec::new();
    let mut i: usize = 0;
    let mut cs: usize = 0;
    let mut fp: usize = 0;
    proof {
        assert(spans_model(acc@) =~= Seq::<SpanModel>::empty());
        assert(spans_model(acc@) + scan_spec(line@, usersv, 0, 0, 0) =~= scan_spec(
            line@,
            usersv,
            0,
            0,
            0,
        ));
    }
    while i < n
        invariant
            n == line@.len(),
            kw@ == kw_sudo(),
            usersv == lines_view(users@),
            fp <= cs <= i <= n,
            contains_seq(line@, kw_sudo()),
            tokenize_spec(line@, usersv) == spans_model(acc@) + scan_spec(
                line@,
                usersv,
                i as int,
                cs as int,
                fp as int,
            ),
        decreases n - i, i - cs,
    {
        let ghost w = line@.subrange(cs as int, i + 1);
        let ghost state_spans = scan_spec(line@, usersv, i as int, cs as int, fp as int);
        if eq_in_range(line, cs, i + 1, &kw) {
            let ghost acc0 = spans_model(acc@);
            if fp < cs {
                let text = copy_range(line, fp, cs);
                acc.push(Span { text, role: SpanRole::Plain });
            }
            let text = copy_range(line, cs, i + 1);
            acc.push(Span { text, role: SpanRole::Keyword });
            proof {
                let m = SpanModel { text: kw_sudo(), role: SpanRole::Keyword };
                assert(state_spans == emit_plain(line@, fp as int, cs as int) + seq![m]
                    + scan_spec(line@, usersv, i + 1, i + 1, i + 1));
                assert(acc@[acc@.len() - 1]@ =~= m);
                assert(spans_model(acc@) =~= acc0 + emit_plain(line@, fp as int, cs as int)
                    + seq![m]);
                assert(acc0 + (emit_plain(line@, fp as int, cs as int) + seq![m] + scan_spec(
                    line@,
                    usersv,
                    i + 1,
                    i + 1,
                    i + 1,
                )) =~= (acc0 + emit_plain(line@, fp as int, cs as int) + seq![m]) + scan_spec(
                    line@,
                    usersv,
                    i + 1,
                    i + 1,
                    i + 1,
                ));
            }
            i += 1;
            cs = i;
            fp = i;
        } else if range_is_prefix(line, cs, i + 1, &kw) {
            proof {
                assert(state_spans == scan_spec(line@, usersv, i + 1, cs as int, fp as int));
            }
            i += 1;
        } else if user_exact(users, line, cs, i + 1) {
            let ghost acc0 = spans_model(acc@);
            if fp < cs {
                let text = copy_range(line, fp, cs);
                acc.push(Span { text, role: SpanRole::Plain });
            }
            let text = copy_range(line, cs, i + 1);
            acc.push(Span { text, role: SpanRole::Username });
            proof {
                let m = SpanModel { text: w, role: SpanRole::Username };
                assert(state_spans == emit_plain(line@, fp as int, cs as int) + seq![m]
                    + scan_spec(line@, usersv, i + 1, i + 1, i + 1));
                assert(acc@[acc@.len() - 1]@ =~= m);
                assert(spans_model(acc@) =~= acc0 + emit_plain(line@, fp as int, cs as int)
                    + seq![m]);
                assert(acc0 + (emit_plain(line@, fp as int, cs as int) + seq![m] + scan_spec(
                    line@,
                    usersv,
                    i + 1,
                    i + 1,
                    i + 1,
                )) =~= (acc0 + emit_plain(line@, fp as int, cs as int) + seq![m]) + scan_spec(
                    line@,
                    usersv,
                    i + 1,
                    i + 1,
                    i + 1,
                ));
            }
            i += 1;
            cs = i;
            fp = i;
        } else if user_could(users, line, cs, i + 1) {
            proof {
                assert(state_spans == scan_spec(line@, usersv, i + 1, cs as int, fp as int));
            }
            i += 1;
        } else if cs < i {
            proof {
                assert(state_spans == scan_spec(line@, usersv, i as int, i as int, fp as int));
            }
            cs = i;
        } else {
            proof {
                assert(state_spans == scan_spec(line@, usersv, i + 1, i + 1, fp as int));
            }
            i += 1;
            cs = i;
        }
    }
    if fp < n {
        let ghost acc0 = spans_model(acc@);
        let text = copy_range(line, fp, n);
        acc.push(Span { text, role: SpanRole::Plain });
        proof {
            let m = plain_span(line@.subrange(fp as int, n as int));
            assert(scan_spec(line@, usersv, i as int, cs as int, fp as int) == seq![m]);
            assert(acc@[acc@.len() - 1]@ =~= m);
            assert(spans_model(acc@) =~= acc0 + seq![m]);
        }
    } else {
        proof {
            assert(scan_spec(line@, usersv, i as int, cs as int, fp as int)
                =~= Seq::<SpanModel>::empty());
            assert(spans_model(acc@) + Seq::<SpanModel>::empty() =~= spans_model(acc@));
        }
    }
    acc
}

} // verus!
