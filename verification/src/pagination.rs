//! Pure pagination and tab-cycling arithmetic, and the laws that govern it:
//! the page count is the ceiling of `total / cap`, the pages partition the
//! item sequence, page moves stick at the boundaries, and cycling through
//! all tabs returns to the start.

use vstd::arithmetic::div_mod::{
    lemma_fundamental_div_mod, lemma_fundamental_div_mod_converse, lemma_mod_self_0,
    lemma_small_mod,
};
use vstd::arithmetic::mul::lemma_mul_inequality;
use vstd::prelude::*;

verus! {

/// Number of pages needed to show `total` items at `cap` items per page:
/// zero when there is nothing to show or the capacity is zero (an invalid
/// display configuration), otherwise the ceiling of `total / cap`.
pub open spec fn spec_num_pages(total: nat, cap: nat) -> nat {
    if cap == 0 || total == 0 {
        0
    } else {
        ((total + cap - 1) / (cap as int)) as nat
    }
}

/// Index of the first item of page `p`.
pub open spec fn spec_page_first(p: nat, cap: nat) -> nat {
    p * cap
}

/// One past the index of the last item of page `p`: the final page ends at
/// `total`, every other page is exactly `cap` items long.
pub open spec fn spec_page_last(p: nat, total: nat, cap: nat) -> nat {
    if p + 1 == spec_num_pages(total, cap) {
        total
    } else {
        (p + 1) * cap
    }
}

/// The ceiling division agrees with the executable `total / cap` plus a
/// correction for a nonzero remainder.
pub proof fn lemma_num_pages_formula(total: nat, cap: nat)
    requires
        cap > 0,
    ensures
        spec_num_pages(total, cap) == if total % cap == 0 {
            total / cap
        } else {
            total / cap + 1
        },
{
    if total == 0 {
        lemma_small_mod(0, cap as nat);
        assert(0int / (cap as int) == 0) by (nonlinear_arith)
            requires cap > 0;
    } else {
        let t = total as int;
        let c = cap as int;
        lemma_fundamental_div_mod(t, c);
        let q = t / c;
        let r = t % c;
        assert(0 <= r < c) by (nonlinear_arith)
            requires c > 0, r == t % c;
        if r == 0 {
            assert(t + c - 1 == c * q + (c - 1));
            lemma_fundamental_div_mod_converse(t + c - 1, c, q, c - 1);
        } else {
            assert(c * (q + 1) == c * q + c) by (nonlinear_arith);
            assert(t + c - 1 == c * (q + 1) + (r - 1));
            lemma_fundamental_div_mod_converse(t + c - 1, c, q + 1, r - 1);
        }
    }
}

/// The page count is exactly the ceiling of `total / cap`: the pages
/// together have room for every item, while one page fewer would not.
pub proof fn lemma_num_pages_is_ceiling(total: nat, cap: nat)
    requires
        cap > 0,
    ensures
        spec_num_pages(total, cap) * cap >= total,
        total > 0 ==> (spec_num_pages(total, cap) - 1) * cap < total,
{
    let t = total as int;
    let c = cap as int;
    let np = spec_num_pages(total, cap) as int;
    if total == 0 {
        assert(np * c >= 0) by (nonlinear_arith)
            requires np == 0;
    } else {
        lemma_fundamental_div_mod(t + c - 1, c);
        let r = (t + c - 1) % c;
        assert(0 <= r < c) by (nonlinear_arith)
            requires c > 0, r == (t + c - 1) % c;
        assert(t + c - 1 == c * np + r);
        assert(np * c >= t && (np - 1) * c < t) by (nonlinear_arith)
            requires t + c - 1 == c * np + r, 0 <= r < c;
    }
}

/// With a positive capacity there are zero pages exactly when there are
/// zero items.
pub proof fn lemma_num_pages_zero(total: nat, cap: nat)
    requires
        cap > 0,
    ensures
        (spec_num_pages(total, cap) == 0) <==> (total == 0),
{
    if total > 0 {
        let t = total as int;
        let c = cap as int;
        lemma_fundamental_div_mod(t + c - 1, c);
        let q = (t + c - 1) / c;
        let r = (t + c - 1) % c;
        assert(0 <= r < c) by (nonlinear_arith)
            requires c > 0, r == (t + c - 1) % c;
        assert(q >= 1) by (nonlinear_arith)
            requires t >= 1, c > 0, t + c - 1 == c * q + r, 0 <= r < c;
    }
}

/// Basic bounds of the page count: every page before the last starts and
/// ends strictly inside the items, and the last page reaches `total`.
pub proof fn lemma_page_bounds(total: nat, cap: nat, p: nat)
    requires
        cap > 0,
        p < spec_num_pages(total, cap),
    ensures
        spec_page_first(p, cap) < total,
        spec_page_last(p, total, cap) <= total,
        spec_page_first(p, cap) < spec_page_last(p, total, cap),
        p + 1 == spec_num_pages(total, cap) ==> spec_page_last(p, total, cap) == total,
        p + 1 != spec_num_pages(total, cap) ==> spec_page_last(p, total, cap) == spec_page_first(
            p,
            cap,
        ) + cap,
{
    let t = total as int;
    let c = cap as int;
    let np = spec_num_pages(total, cap) as int;
    lemma_fundamental_div_mod(t + c - 1, c);
    let r = (t + c - 1) % c;
    assert(0 <= r < c) by (nonlinear_arith)
        requires c > 0, r == (t + c - 1) % c;
    assert(t + c - 1 == c * np + r);
    // np * c is at least t and (np - 1) * c is below t.
    assert(np * c >= t && (np - 1) * c < t) by (nonlinear_arith)
        requires t + c - 1 == c * np + r, 0 <= r < c;
    // first(p) = p * c <= (np - 1) * c < t
    lemma_mul_inequality(p as int, np - 1, c);
    assert(p * c <= (np - 1) * c);
    assert(spec_page_first(p, cap) == p * c);
    assert((p + 1) * c == p * c + c) by (nonlinear_arith);
    if p + 1 == np {
        assert(spec_page_last(p, total, cap) == total);
    } else {
        lemma_mul_inequality(p as int + 1, np - 1, c);
        assert((p + 1) * c <= (np - 1) * c);
        assert(spec_page_last(p, total, cap) == (p + 1) * c);
    }
}

/// The concatenation of pages `0 .. k`.
pub open spec fn pages_concat<T>(s: Seq<T>, cap: nat, k: nat) -> Seq<T>
    decreases k,
{
    if k == 0 {
        Seq::empty()
    } else {
        pages_concat(s, cap, (k - 1) as nat) + s.subrange(
            spec_page_first((k - 1) as nat, cap) as int,
            spec_page_last((k - 1) as nat, s.len(), cap) as int,
        )
    }
}

proof fn lemma_pages_concat_prefix<T>(s: Seq<T>, cap: nat, k: nat)
    requires
        cap > 0,
        k <= spec_num_pages(s.len(), cap),
    ensures
        pages_concat(s, cap, k) == if k == spec_num_pages(s.len(), cap) {
            s.subrange(0, s.len() as int)
        } else {
            s.subrange(0, (k * cap) as int)
        },
    decreases k,
{
    let np = spec_num_pages(s.len(), cap);
    lemma_num_pages_zero(s.len(), cap);
    if k == 0 {
        assert(pages_concat(s, cap, 0) =~= s.subrange(0, 0));
    } else {
        let p = (k - 1) as nat;
        lemma_pages_concat_prefix(s, cap, p);
        lemma_page_bounds(s.len(), cap, p);
        assert(pages_concat(s, cap, k) == pages_concat(s, cap, p) + s.subrange(
            spec_page_first(p, cap) as int,
            spec_page_last(p, s.len(), cap) as int,
        ));
        assert(pages_concat(s, cap, p) == s.subrange(0, (p * cap) as int));
        assert(spec_page_first(p, cap) == p * cap);
        assert((p + 1) * cap == p * cap + cap) by (nonlinear_arith);
        if k == np {
            assert(spec_page_last(p, s.len(), cap) == s.len());
            assert(pages_concat(s, cap, k) =~= s.subrange(0, s.len() as int));
        } else {
            // page p is not the last page, so it ends at k * cap
            assert(p + 1 < np);
            assert(spec_page_last(p, s.len(), cap) == (p + 1) * cap);
            assert((p + 1) * cap == k * cap);
            assert(pages_concat(s, cap, k) =~= s.subrange(0, (k * cap) as int));
        }
    }
}

/// The pages of an item sequence, taken in order, reconstruct the sequence
/// exactly: no item is dropped and none appears twice.
pub proof fn lemma_pages_cover<T>(s: Seq<T>, cap: nat)
    requires
        cap > 0,
    ensures
        pages_concat(s, cap, spec_num_pages(s.len(), cap)) == s,
{
    let np = spec_num_pages(s.len(), cap);
    if s.len() == 0 {
        assert(pages_concat(s, cap, 0) =~= s);
    } else {
        lemma_pages_concat_prefix(s, cap, np);
        assert(s.subrange(0, s.len() as int) =~= s);
    }
}

/// Page index after a move towards the first page: a no-op at page zero.
pub open spec fn spec_page_up(p: nat) -> nat {
    if p > 0 {
        (p - 1) as nat
    } else {
        0
    }
}

/// Page index after a move towards the last page: a no-op on the last page,
/// and when there are no pages at all.
pub open spec fn spec_page_down(p: nat, num_pages: nat) -> nat {
    if num_pages > 0 && p + 1 < num_pages {
        p + 1
    } else {
        p
    }
}

/// Repeated moves at the first page stay at the first page.
pub proof fn lemma_page_up_sticks_at_first(p: nat)
    requires
        p == 0,
    ensures
        spec_page_up(p) == p,
        spec_page_up(spec_page_up(p)) == p,
{
}

/// Repeated moves at the last page stay at the last page.
pub proof fn lemma_page_down_sticks_at_last(p: nat, num_pages: nat)
    requires
        num_pages == 0 || p + 1 == num_pages,
    ensures
        spec_page_down(p, num_pages) == p,
        spec_page_down(spec_page_down(p, num_pages), num_pages) == p,
{
}

/// Tab index after selecting the next tab, wrapping past the end.
pub open spec fn spec_next_tab(t: nat, n: nat) -> nat
    recommends
        n > 0,
        t < n,
{
    if t + 1 < n {
        t + 1
    } else {
        0
    }
}

/// Tab index after selecting the previous tab, wrapping past the start.
pub open spec fn spec_prev_tab(t: nat, n: nat) -> nat
    recommends
        n > 0,
        t < n,
{
    if t > 0 {
        (t - 1) as nat
    } else {
        (n - 1) as nat
    }
}

/// The remainder form used by the executable code agrees with
/// `spec_next_tab`.
pub proof fn lemma_next_tab_mod(t: nat, n: nat)
    requires
        n > 0,
        t < n,
    ensures
        ((t + 1) % n) == spec_next_tab(t, n),
{
    if t + 1 < n {
        lemma_small_mod(t + 1, n);
    } else {
        lemma_mod_self_0(n as int);
    }
}

/// `spec_next_tab` iterated `k` times.
pub open spec fn iter_next_tab(t: nat, n: nat, k: nat) -> nat
    decreases k,
{
    if k == 0 {
        t
    } else {
        spec_next_tab(iter_next_tab(t, n, (k - 1) as nat), n)
    }
}

/// `spec_prev_tab` iterated `k` times.
pub open spec fn iter_prev_tab(t: nat, n: nat, k: nat) -> nat
    decreases k,
{
    if k == 0 {
        t
    } else {
        spec_prev_tab(iter_prev_tab(t, n, (k - 1) as nat), n)
    }
}

proof fn lemma_iter_next_tab_shape(t: nat, n: nat, k: nat)
    requires
        n > 0,
        t < n,
        k <= n,
    ensures
        iter_next_tab(t, n, k) == if t + k < n {
            t + k
        } else {
            (t + k - n) as nat
        },
    decreases k,
{
    if k > 0 {
        lemma_iter_next_tab_shape(t, n, (k - 1) as nat);
    }
}

proof fn lemma_iter_prev_tab_shape(t: nat, n: nat, k: nat)
    requires
        n > 0,
        t < n,
        k <= n,
    ensures
        iter_prev_tab(t, n, k) == if t >= k {
            (t - k) as nat
        } else {
            (t + n - k) as nat
        },
    decreases k,
{
    if k > 0 {
        lemma_iter_prev_tab_shape(t, n, (k - 1) as nat);
    }
}

/// Selecting the next tab as many times as there are tabs returns to the
/// original tab.
pub proof fn lemma_next_tab_cycle(t: nat, n: nat)
    requires
        n > 0,
        t < n,
    ensures
        iter_next_tab(t, n, n) == t,
{
    lemma_iter_next_tab_shape(t, n, n);
}

/// Selecting the previous tab as many times as there are tabs returns to
/// the original tab.
pub proof fn lemma_prev_tab_cycle(t: nat, n: nat)
    requires
        n > 0,
        t < n,
    ensures
        iter_prev_tab(t, n, n) == t,
{
    lemma_iter_prev_tab_shape(t, n, n);
}

} // verus!
