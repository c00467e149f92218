//! The counting lower bound: however the guesses are chosen, finding every
//! one of `n` different candidates costs at least `theoretical_lower_spec(n)`
//! submissions in all.
use vstd::prelude::*;

use crate::judge::{exact_matches, feedback, lemma_all_exact_iff_equal, lemma_feedback_bounds, lemma_one_off_no_partial};
use crate::optimal::{
    bucket, children_spec, fb_code, lemma_children_subset, lemma_sum_lens_update, sat_mul, strategy_forest,
    strategy_tree, sum_lens, theoretical_lower_spec, tl_from, tree_guess,
};
use crate::realize::{agree_below, lemma_child_bucket, lemma_tree_local, within};
use vstd::seq_lib::lemma_fold_left_permutation;

verus! {

/// The capacity of the level below one of capacity `cap`.
pub open spec fn next_cap(cap: nat, branches: nat) -> nat {
    if sat_mul(cap, branches) >= 1 {
        sat_mul(cap, branches)
    } else {
        1
    }
}

/// Every candidate placed from level `depth` on costs at least `depth`.
proof fn lemma_tl_at_least(m: nat, cap: nat, d: nat, br: nat)
    requires
        cap >= 1,
    ensures
        tl_from(m, cap, d, br) >= d * m,
    decreases m,
{
    if m > 0 {
        let take = if cap < m {
            cap
        } else {
            m
        };
        let rest = (m - take) as nat;
        assert(tl_from(m, cap, d, br) == d * take + tl_from(rest, next_cap(cap, br), d + 1, br));
        lemma_tl_at_least(rest, next_cap(cap, br), d + 1, br);
        assert(d * take + (d + 1) * rest >= d * m) by (nonlinear_arith)
            requires
                rest == m - take,
                take <= m,
        ;
    } else {
        assert(d * m == 0) by (nonlinear_arith)
            requires
                m == 0,
        ;
    }
}

/// Filling all of `m` candidates into one level of room for them costs
/// `depth` each.
proof fn lemma_tl_fits(m: nat, cap: nat, d: nat, br: nat)
    requires
        cap >= m,
        cap >= 1,
    ensures
        tl_from(m, cap, d, br) == d * m,
{
    if m > 0 {
        assert(tl_from(0, next_cap(cap, br), d + 1, br) == 0);
    }
}

/// Each of `delta` more candidates costs at least `depth`.
proof fn lemma_tl_marginal(m: nat, delta: nat, cap: nat, d: nat, br: nat)
    requires
        cap >= 1,
        delta <= m,
    ensures
        tl_from(m, cap, d, br) >= tl_from((m - delta) as nat, cap, d, br) + d * delta,
    decreases m,
{
    if delta > 0 {
        let m2 = (m - delta) as nat;
        if m2 >= cap {
            let nc = next_cap(cap, br);
            lemma_tl_marginal((m - cap) as nat, delta, nc, d + 1, br);
            assert(((m - cap) - delta) as nat == (m2 - cap) as nat);
            assert((d + 1) * delta >= d * delta) by (nonlinear_arith);
        } else {
            lemma_tl_fits(m2, cap, d, br);
            lemma_tl_at_least(m, cap, d, br);
            assert(d * m == d * m2 + d * delta) by (nonlinear_arith)
                requires
                    m2 == m - delta,
            ;
        }
    }
}

/// Starting one level deeper costs one more per candidate.
proof fn lemma_tl_shift(n: nat, cap: nat, d: nat, br: nat)
    requires
        cap >= 1,
    ensures
        tl_from(n, cap, d + 1, br) == n + tl_from(n, cap, d, br),
    decreases n,
{
    if n > 0 {
        let take = if cap < n {
            cap
        } else {
            n
        };
        lemma_tl_shift((n - take) as nat, next_cap(cap, br), d + 1, br);
        assert((d + 1) * take == take + d * take) by (nonlinear_arith);
    }
}

/// More room on each level never costs more.
proof fn lemma_tl_cap_mono(n: nat, cap1: nat, cap2: nat, d: nat, br: nat)
    requires
        1 <= cap1 <= cap2,
    ensures
        tl_from(n, cap2, d, br) <= tl_from(n, cap1, d, br),
    decreases n,
{
    if n > 0 {
        let t1 = if cap1 < n {
            cap1
        } else {
            n
        };
        let t2 = if cap2 < n {
            cap2
        } else {
            n
        };
        let n1 = next_cap(cap1, br);
        let n2 = next_cap(cap2, br);
        assert(cap1 * br <= cap2 * br) by (nonlinear_arith)
            requires
                cap1 <= cap2,
        ;
        assert(n1 <= n2);
        lemma_tl_marginal((n - t1) as nat, (t2 - t1) as nat, n2, d + 1, br);
        assert(((n - t1) - (t2 - t1)) as nat == (n - t2) as nat);
        lemma_tl_cap_mono((n - t1) as nat, n1, n2, d + 1, br);
        assert(d * t2 + (d + 1) * (t2 - t1) >= d * t1 + 0) by (nonlinear_arith)
            requires
                t1 <= t2,
        ;
        assert(d * t2 == d * t1 + d * (t2 - t1)) by (nonlinear_arith)
            requires
                t1 <= t2,
        ;
        assert((d + 1) * (t2 - t1) >= d * (t2 - t1)) by (nonlinear_arith)
            requires
                t1 <= t2,
        ;
    }
}

/// Two fills side by side cost at least one fill with their levels' room
/// added up, of at most as many candidates.
proof fn lemma_tl_split(m: nat, cc: nat, m1: nat, c1: nat, m2: nat, c2: nat, d: nat, br: nat)
    requires
        m <= m1 + m2,
        m <= usize::MAX,
        c1 >= 1,
        c2 >= 1,
        cc >= 1,
        cc >= c1 + c2 || cc >= m,
        br >= 1,
    ensures
        tl_from(m, cc, d, br) <= tl_from(m1, c1, d, br) + tl_from(m2, c2, d, br),
    decreases m1 + m2,
{
    lemma_tl_at_least(m1, c1, d, br);
    lemma_tl_at_least(m2, c2, d, br);
    if cc >= m {
        lemma_tl_fits(m, cc, d, br);
        assert(d * m <= d * m1 + d * m2) by (nonlinear_arith)
            requires
                m <= m1 + m2,
        ;
    } else {
        let t1 = if c1 < m1 {
            c1
        } else {
            m1
        };
        let t2 = if c2 < m2 {
            c2
        } else {
            m2
        };
        let nc = next_cap(cc, br);
        let n1 = next_cap(c1, br);
        let n2 = next_cap(c2, br);
        assert(t1 + t2 >= 1);
        let mid = (m - t1 - t2) as nat;
        lemma_tl_marginal(mid, (cc - t1 - t2) as nat, nc, d + 1, br);
        assert((mid - (cc - t1 - t2)) as nat == (m - cc) as nat);
        if cc * br <= usize::MAX {
            assert(cc * br >= c1 * br + c2 * br) by (nonlinear_arith)
                requires
                    cc >= c1 + c2,
            ;
            assert(c1 * br >= 1 && c2 * br >= 1 && cc * br >= 1) by (nonlinear_arith)
                requires
                    c1 >= 1,
                    c2 >= 1,
                    cc >= 1,
                    br >= 1,
            ;
            assert(nc == cc * br);
            assert(n1 == c1 * br);
            assert(n2 == c2 * br);
        } else {
            assert(nc == usize::MAX);
        }
        lemma_tl_split(mid, nc, (m1 - t1) as nat, n1, (m2 - t2) as nat, n2, d + 1, br);
        assert(d * cc == d * (t1 + t2) + d * (cc - t1 - t2)) by (nonlinear_arith)
            requires
                t1 + t2 <= cc,
        ;
        assert((d + 1) * (cc - t1 - t2) >= d * (cc - t1 - t2)) by (nonlinear_arith)
            requires
                t1 + t2 <= cc,
        ;
        assert(d * (t1 + t2) == d * t1 + d * t2) by (nonlinear_arith);
        if m1 == 0 {
            assert(tl_from(m1, c1, d, br) == 0);
        }
        if m2 == 0 {
            assert(tl_from(m2, c2, d, br) == 0);
        }
    }
}

/// The sum of a list of sizes.
pub open spec fn sizes_sum(s: Seq<nat>) -> nat
    decreases s.len(),
{
    if s.len() == 0 {
        0
    } else {
        sizes_sum(s.drop_last()) + s.last()
    }
}

/// The sum of the counting bounds of a list of sizes.
pub open spec fn bounds_sum(s: Seq<nat>, br: nat) -> nat
    decreases s.len(),
{
    if s.len() == 0 {
        0
    } else {
        bounds_sum(s.drop_last(), br) + theoretical_lower_spec(s.last(), br)
    }
}

/// Separate fills, one per size, cost at least one fill with as many
/// places on its first level as there are sizes.
proof fn lemma_tl_forest(s: Seq<nat>, br: nat)
    requires
        s.len() >= 1,
        sizes_sum(s) <= usize::MAX,
        br >= 1,
    ensures
        tl_from(sizes_sum(s), s.len(), 1, br) <= bounds_sum(s, br),
    decreases s.len(),
{
    let d = s.drop_last();
    if d.len() == 0 {
        assert(sizes_sum(s) == s.last());
    } else {
        lemma_tl_forest(d, br);
        lemma_tl_split(sizes_sum(s), s.len(), sizes_sum(d), d.len(), s.last(), 1, 1, br);
    }
}

/// A state of `n` candidates whose guess leaves at most one of them found
/// and splits the others into at most `br` states costs, with the counting
/// bound below each, at least the counting bound for `n`.
pub proof fn lemma_tl_step(n: nat, s: Seq<nat>, br: nat)
    requires
        1 <= n <= usize::MAX,
        s.len() <= br,
        1 <= br <= usize::MAX,
        n - 1 <= sizes_sum(s) <= usize::MAX,
    ensures
        theoretical_lower_spec(n, br) <= n + bounds_sum(s, br),
{
    let m = (n - 1) as nat;
    assert(sat_mul(1, br) == br);
    assert(next_cap(1, br) == br);
    lemma_tl_shift(m, br, 1, br);
    assert(theoretical_lower_spec(n, br) == 1 + tl_from(m, br, 2, br));
    if s.len() == 0 {
        assert(m == 0);
    } else {
        lemma_tl_marginal(sizes_sum(s), (sizes_sum(s) - m) as nat, br, 1, br);
        assert((sizes_sum(s) - (sizes_sum(s) - m)) as nat == m);
        lemma_tl_cap_mono(sizes_sum(s), s.len(), br, 1, br);
        lemma_tl_forest(s, br);
    }
}

/// No two ids of `c` name the same code of `sp`.
pub open spec fn distinct_codes(sp: Seq<Seq<u8>>, c: Seq<u16>) -> bool {
    forall|i: int, j: int| 0 <= i < j < c.len() ==> sp[#[trigger] c[i] as int] != sp[#[trigger] c[j] as int]
}

/// Picking some of the ids keeps their codes different.
proof fn lemma_filter_distinct(sp: Seq<Seq<u8>>, c: Seq<u16>, p: spec_fn(u16) -> bool)
    requires
        distinct_codes(sp, c),
    ensures
        distinct_codes(sp, c.filter(p)),
    decreases c.len(),
{
    reveal(Seq::filter);
    if c.len() > 0 {
        let d = c.drop_last();
        assert(distinct_codes(sp, d)) by {
            assert forall|i: int, j: int| 0 <= i < j < d.len() implies sp[#[trigger] d[i] as int] != sp[#[trigger] d[j] as int] by {
                assert(c[i] == d[i] && c[j] == d[j]);
            }
        }
        lemma_filter_distinct(sp, d, p);
        let sub = d.filter(p);
        if p(c.last()) {
            let t = sub.push(c.last());
            assert forall|i: int, j: int| 0 <= i < j < t.len() implies sp[#[trigger] t[i] as int] != sp[#[trigger] t[j] as int] by {
                if j < sub.len() {
                    assert(t[i] == sub[i] && t[j] == sub[j]);
                } else {
                    assert(t[i] == sub[i]);
                    assert(sub.contains(sub[i]));
                    d.lemma_filter_contains_rev(p, sub[i]);
                    let q = choose|q: int| 0 <= q < d.len() && d[q] == sub[i];
                    assert(c[q] == sub[i]);
                    assert(t[j] == c[c.len() - 1]);
                }
            }
        }
    }
}

/// A feedback code other than all exact that a guess can receive: exact
/// and partial marks adding up to at most `slots`, and never all but one
/// exact with one partial.
pub open spec fn possible_mark(slots: nat, f: int) -> bool {
    &&& 0 <= f
    &&& f / 5 + f % 5 <= slots
    &&& !(f / 5 == slots && f % 5 == 0)
    &&& !(f / 5 + 1 == slots && f % 5 == 1)
}

/// The number of possible non-terminal codes below `n`.
pub open spec fn possible_count(slots: nat, n: nat) -> nat
    decreases n,
{
    if n == 0 {
        0
    } else {
        possible_count(slots, (n - 1) as nat) + if possible_mark(slots, n - 1) {
            1nat
        } else {
            0nat
        }
    }
}

/// The non-terminal codes number `(slots + 1) * (slots + 2) / 2 - 2`.
pub proof fn lemma_possible_count(slots: nat)
    requires
        1 <= slots <= 4,
    ensures
        possible_count(slots, 25) == (slots + 1) * (slots + 2) / 2 - 2,
        1 <= possible_count(slots, 25) <= 13,
{
    reveal_with_fuel(possible_count, 26);
    if slots == 1 {
        assert(possible_count(1, 25) == 1);
        assert((slots + 1) * (slots + 2) / 2 - 2 == 1) by (nonlinear_arith)
            requires
                slots == 1,
        ;
    } else if slots == 2 {
        assert(possible_count(2, 25) == 4);
        assert((slots + 1) * (slots + 2) / 2 - 2 == 4) by (nonlinear_arith)
            requires
                slots == 2,
        ;
    } else if slots == 3 {
        assert(possible_count(3, 25) == 8);
        assert((slots + 1) * (slots + 2) / 2 - 2 == 8) by (nonlinear_arith)
            requires
                slots == 3,
        ;
    } else {
        assert(possible_count(4, 25) == 13);
        assert((slots + 1) * (slots + 2) / 2 - 2 == 13) by (nonlinear_arith)
            requires
                slots == 4,
        ;
    }
}

/// A code of `sp` that a guess of `sp` does not find exactly gets a
/// possible mark.
proof fn lemma_mark_possible(sp: Seq<Seq<u8>>, slots: nat, g: int, a: int)
    requires
        0 <= g < sp.len(),
        0 <= a < sp.len(),
        sp[g].len() == slots,
        sp[a].len() == slots,
        1 <= slots <= 4,
        fb_code(sp, g, a) != slots * 5,
    ensures
        possible_mark(slots, fb_code(sp, g, a)),
        fb_code(sp, g, a) < 25,
{
    let e = exact_matches(sp[g], sp[a]) as int;
    lemma_feedback_bounds(sp[g], sp[a]);
    let p = feedback(sp[g], sp[a]).1;
    assert(0 <= p && e + p <= slots);
    let f = e * 5 + p;
    assert(f / 5 == e && f % 5 == p) by (nonlinear_arith)
        requires
            f == e * 5 + p,
            0 <= p < 5,
            e >= 0,
    ;
    if e + 1 == slots {
        lemma_one_off_no_partial(sp[g], sp[a]);
    }
}

/// A code of `sp` gets the all-exact mark only from a guess with the same code.
proof fn lemma_terminal_same(sp: Seq<Seq<u8>>, slots: nat, g: int, a: int)
    requires
        0 <= g < sp.len(),
        0 <= a < sp.len(),
        sp[g].len() == slots,
        sp[a].len() == slots,
        fb_code(sp, g, a) == slots * 5,
    ensures
        sp[g] == sp[a],
{
    lemma_feedback_bounds(sp[g], sp[a]);
    let e = exact_matches(sp[g], sp[a]) as int;
    assert(e == slots);
    lemma_all_exact_iff_equal(sp[g], sp[a]);
}

/// The ids of `c`, their codes and the guess's code are all codes of `sp`
/// with `slots` colours.
pub open spec fn shaped(sp: Seq<Seq<u8>>, slots: nat, c: Seq<u16>) -> bool {
    &&& 1 <= slots <= 4
    &&& forall|i: int| 0 <= i < sp.len() ==> (#[trigger] sp[i]).len() == slots
    &&& forall|i: int| 0 <= i < c.len() ==> (#[trigger] c[i] as int) < sp.len()
}

/// Dropping empty states keeps the total size.
proof fn lemma_sum_lens_nonempty(s: Seq<Seq<u16>>)
    ensures
        sum_lens(s.filter(|b: Seq<u16>| b.len() > 0)) == sum_lens(s),
    decreases s.len(),
{
    reveal(Seq::filter);
    if s.len() > 0 {
        lemma_sum_lens_nonempty(s.drop_last());
        let sub = s.drop_last().filter(|b: Seq<u16>| b.len() > 0);
        if s.last().len() > 0 {
            assert(sub.push(s.last()).drop_last() =~= sub);
        }
    }
}

/// The ids found exactly by guess `g`.
pub open spec fn found_by(sp: Seq<Seq<u8>>, slots: nat, c: Seq<u16>, g: int) -> Seq<u16> {
    c.filter(|id: u16| fb_code(sp, g, id as int) == slots * 5)
}

/// Every id of `c` is found by `g` or lies in one of its buckets.
proof fn lemma_bucket_total(sp: Seq<Seq<u8>>, slots: nat, c: Seq<u16>, g: int)
    requires
        shaped(sp, slots, c),
        0 <= g < sp.len(),
    ensures
        sum_lens(Seq::new(25, |f: int| bucket(sp, slots, c, g, f))) + found_by(sp, slots, c, g).len() == c.len(),
    decreases c.len(),
{
    let all = Seq::new(25, |f: int| bucket(sp, slots, c, g, f));
    if c.len() == 0 {
        reveal(Seq::filter);
        assert forall|f: int| 0 <= f < 25 implies (#[trigger] all[f]).len() == 0 by {}
        lemma_sum_lens_zero(all);
    } else {
        let d = c.drop_last();
        let x = c.last();
        assert(shaped(sp, slots, d)) by {
            assert forall|i: int| 0 <= i < d.len() implies (#[trigger] d[i] as int) < sp.len() by {
                assert(d[i] == c[i]);
            }
        }
        lemma_bucket_total(sp, slots, d, g);
        assert(c =~= d.push(x));
        let prev = Seq::new(25, |f: int| bucket(sp, slots, d, g, f));
        let fx = fb_code(sp, g, x as int);
        assert((c.len() - 1) as int >= 0);
        assert((x as int) < sp.len());
        let pt = |id: u16| fb_code(sp, g, id as int) == slots * 5;
        d.lemma_filter_push(x, pt);
        if fx == slots * 5 {
            assert forall|f: int| 0 <= f < 25 implies #[trigger] all[f] == prev[f] by {
                if f != slots * 5 {
                    let pf = |id: u16| fb_code(sp, g, id as int) == f;
                    d.lemma_filter_push(x, pf);
                }
            }
            assert(all =~= prev);
        } else {
            lemma_mark_possible(sp, slots, g, x as int);
            let pf = |id: u16| fb_code(sp, g, id as int) == fx;
            d.lemma_filter_push(x, pf);
            assert forall|f: int| 0 <= f < 25 implies #[trigger] all[f] == prev.update(fx, prev[fx].push(x))[f] by {
                if f != slots * 5 && f != fx {
                    let pg = |id: u16| fb_code(sp, g, id as int) == f;
                    d.lemma_filter_push(x, pg);
                }
            }
            assert(all =~= prev.update(fx, prev[fx].push(x)));
            lemma_sum_lens_update(prev, fx, prev[fx].push(x));
        }
    }
}

proof fn lemma_sum_lens_zero(s: Seq<Seq<u16>>)
    requires
        forall|i: int| 0 <= i < s.len() ==> (#[trigger] s[i]).len() == 0,
    ensures
        sum_lens(s) == 0,
    decreases s.len(),
{
    if s.len() > 0 {
        assert(s[s.len() - 1].len() == 0);
        lemma_sum_lens_zero(s.drop_last());
    }
}

/// Among ids with different codes, a guess finds at most one exactly.
pub proof fn lemma_found_at_most_one(sp: Seq<Seq<u8>>, slots: nat, c: Seq<u16>, g: int)
    requires
        shaped(sp, slots, c),
        distinct_codes(sp, c),
        0 <= g < sp.len(),
    ensures
        found_by(sp, slots, c, g).len() <= 1,
{
    let pt = |id: u16| fb_code(sp, g, id as int) == slots * 5;
    let t = c.filter(pt);
    if t.len() >= 2 {
        lemma_filter_distinct(sp, c, pt);
        c.lemma_filter_pred(pt, 0);
        c.lemma_filter_pred(pt, 1);
        assert(t.contains(t[0]) && t.contains(t[1]));
        c.lemma_filter_contains_rev(pt, t[0]);
        c.lemma_filter_contains_rev(pt, t[1]);
        let q0 = choose|q: int| 0 <= q < c.len() && c[q] == t[0];
        let q1 = choose|q: int| 0 <= q < c.len() && c[q] == t[1];
        lemma_terminal_same(sp, slots, g, c[q0] as int);
        lemma_terminal_same(sp, slots, g, c[q1] as int);
        assert(sp[t[0] as int] != sp[t[1] as int]);
    }
}

/// A guess has at most as many buckets as there are possible marks.
proof fn lemma_children_count(sp: Seq<Seq<u8>>, slots: nat, c: Seq<u16>, g: int)
    requires
        shaped(sp, slots, c),
        0 <= g < sp.len(),
    ensures
        children_spec(sp, slots, c, g).len() <= possible_count(slots, 25),
{
    let all = Seq::new(25, |f: int| bucket(sp, slots, c, g, f));
    assert forall|f: int| 0 <= f < 25 && (#[trigger] all[f]).len() > 0 implies possible_mark(slots, f) by {
        if f != slots * 5 {
            let pf = |id: u16| fb_code(sp, g, id as int) == f;
            let b = c.filter(pf);
            assert(b.len() > 0);
            c.lemma_filter_pred(pf, 0);
            assert(b.contains(b[0]));
            c.lemma_filter_contains_rev(pf, b[0]);
            let q = choose|q: int| 0 <= q < c.len() && c[q] == b[0];
            lemma_mark_possible(sp, slots, g, c[q] as int);
        }
    }
    lemma_count_prefix(all, slots, 25);
    assert(all.take(25) =~= all);
}

proof fn lemma_count_prefix(all: Seq<Seq<u16>>, slots: nat, i: nat)
    requires
        all.len() == 25,
        i <= 25,
        forall|f: int| 0 <= f < 25 && (#[trigger] all[f]).len() > 0 ==> possible_mark(slots, f),
    ensures
        all.take(i as int).filter(|b: Seq<u16>| b.len() > 0).len() <= possible_count(slots, i),
    decreases i,
{
    if i > 0 {
        lemma_count_prefix(all, slots, (i - 1) as nat);
        assert(all.take(i as int) =~= all.take(i - 1).push(all[i - 1]));
        all.take(i - 1).lemma_filter_push(all[i - 1], |b: Seq<u16>| b.len() > 0);
    }
}

/// The sizes of a list of states.
pub open spec fn lens_of(chs: Seq<Seq<u16>>) -> Seq<nat> {
    chs.map_values(|x: Seq<u16>| x.len())
}

proof fn lemma_sizes_sum_lens(chs: Seq<Seq<u16>>)
    ensures
        sizes_sum(lens_of(chs)) == sum_lens(chs),
    decreases chs.len(),
{
    if chs.len() > 0 {
        assert(lens_of(chs).drop_last() =~= lens_of(chs.drop_last()));
        lemma_sizes_sum_lens(chs.drop_last());
    }
}

/// Every guess of `gs` names a code of `sp`.
pub open spec fn guesses_in(gs: Map<Seq<u16>, u16>, n: nat) -> bool {
    forall|k: Seq<u16>| #[trigger] gs.contains_key(k) ==> (gs[k] as nat) < n
}

/// The buckets of a state of different codes are states of different codes.
pub proof fn lemma_children_shaped(sp: Seq<Seq<u8>>, slots: nat, c: Seq<u16>, g: int)
    requires
        shaped(sp, slots, c),
        distinct_codes(sp, c),
        0 <= g < sp.len(),
    ensures
        forall|x: Seq<u16>| #[trigger] children_spec(sp, slots, c, g).contains(x) ==> shaped(sp, slots, x)
            && distinct_codes(sp, x) && 1 <= x.len() <= c.len(),
{
    lemma_children_subset(sp, slots, c, g);
    assert forall|x: Seq<u16>| #[trigger] children_spec(sp, slots, c, g).contains(x) implies shaped(sp, slots, x)
        && distinct_codes(sp, x) && 1 <= x.len() <= c.len() by {
        assert(x.contains(x[0]));
        lemma_child_bucket(sp, slots, c, g, x, x[0]);
        let f = fb_code(sp, g, x[0] as int);
        if f != slots * 5 {
            lemma_filter_distinct(sp, c, |id: u16| fb_code(sp, g, id as int) == f);
        }
        assert forall|i: int| 0 <= i < x.len() implies (#[trigger] x[i] as int) < sp.len() by {
            assert(c.contains(x[i]));
            let q = choose|q: int| 0 <= q < c.len() && c[q] == x[i];
        }
    }
}

/// Whatever guesses are followed from `c`, the total is at least the
/// counting bound for `c`'s size.
pub proof fn lemma_tree_cost(sp: Seq<Seq<u8>>, slots: nat, gs: Map<Seq<u16>, u16>, c: Seq<u16>)
    requires
        shaped(sp, slots, c),
        distinct_codes(sp, c),
        guesses_in(gs, sp.len()),
        1 <= c.len() <= 1296,
    ensures
        strategy_tree(sp, slots, gs, c) matches Ok(t) ==> t.total >= theoretical_lower_spec(
            c.len(),
            possible_count(slots, 25),
        ),
    decreases c.len(), 1nat, 0nat,
{
    match tree_guess(gs, c) {
        None => {},
        Some(g) => {
            assert((g as int) < sp.len()) by {
                if c.len() != 1 {
                    assert(gs.contains_key(c));
                }
            }
            let chs = children_spec(sp, slots, c, g as int);
            lemma_children_shaped(sp, slots, c, g as int);
            lemma_forest_cost(sp, slots, gs, chs, c.len());
            if strategy_forest(sp, slots, gs, chs, c.len()) is Ok {
                let br = possible_count(slots, 25);
                lemma_possible_count(slots);
                lemma_children_count(sp, slots, c, g as int);
                lemma_bucket_total(sp, slots, c, g as int);
                lemma_sum_lens_nonempty(Seq::new(25, |f: int| bucket(sp, slots, c, g as int, f)));
                lemma_found_at_most_one(sp, slots, c, g as int);
                lemma_sizes_sum_lens(chs);
                lemma_tl_step(c.len(), lens_of(chs), br);
            }
        },
    }
}

proof fn lemma_forest_cost(sp: Seq<Seq<u8>>, slots: nat, gs: Map<Seq<u16>, u16>, chs: Seq<Seq<u16>>, bound: nat)
    requires
        forall|x: Seq<u16>| #[trigger] chs.contains(x) ==> shaped(sp, slots, x) && distinct_codes(sp, x) && 1
            <= x.len() <= 1296,
        guesses_in(gs, sp.len()),
    ensures
        strategy_forest(sp, slots, gs, chs, bound) matches Ok(fs) ==> fs.total >= bounds_sum(
            lens_of(chs),
            possible_count(slots, 25),
        ),
    decreases bound, 0nat, chs.len(),
{
    if chs.len() > 0 {
        assert forall|x: Seq<u16>| #[trigger] chs.drop_last().contains(x) implies shaped(sp, slots, x)
            && distinct_codes(sp, x) && 1 <= x.len() <= 1296 by {
            let q = choose|q: int| 0 <= q < chs.drop_last().len() && chs.drop_last()[q] == x;
            assert(chs.contains(chs[q]));
        }
        lemma_forest_cost(sp, slots, gs, chs.drop_last(), bound);
        assert(chs.contains(chs.last()));
        if chs.last().len() < bound {
            lemma_tree_cost(sp, slots, gs, chs.last());
        }
        assert(lens_of(chs).drop_last() =~= lens_of(chs.drop_last()));
    }
}

/// Different ids below `n` number at most `n`.
pub proof fn lemma_ids_len(c: Seq<u16>, n: nat)
    requires
        c.no_duplicates(),
        forall|i: int| 0 <= i < c.len() ==> (#[trigger] c[i] as nat) < n,
    ensures
        c.len() <= n,
{
    c.unique_seq_to_set();
    let s = c.to_set();
    let f = |x: u16| x as int;
    let t = s.map(f);
    assert(vstd::relations::injective_on(f, s));
    vstd::set_lib::lemma_map_size(s, t, f);
    vstd::set_lib::lemma_int_range(0, n as int);
    assert forall|x: int| #[trigger] t.contains(x) implies vstd::set_lib::set_int_range(0, n as int).contains(x) by {
        let y = choose|y: u16| s.contains(y) && f(y) == x;
        assert(c.contains(y));
        let q = choose|q: int| 0 <= q < c.len() && c[q] == y;
    }
    vstd::set_lib::lemma_len_subset(t, vstd::set_lib::set_int_range(0, n as int));
}

/// `lower` is at most the total of every strategy for `c` whose guesses
/// name codes of `sp`.
pub open spec fn sound_lower(sp: Seq<Seq<u8>>, slots: nat, c: Seq<u16>, lower: nat) -> bool {
    forall|g: Map<Seq<u16>, u16>|
        guesses_in(g, sp.len()) && #[trigger] strategy_tree(sp, slots, g, c) is Ok ==> strategy_tree(
            sp,
            slots,
            g,
            c,
        )->Ok_0.total >= lower
}

/// `lower` is at most the total of every such strategy for `c` that starts
/// with guess `x`.
pub open spec fn sound_via(sp: Seq<Seq<u8>>, slots: nat, c: Seq<u16>, x: u16, lower: nat) -> bool {
    forall|g: Map<Seq<u16>, u16>|
        guesses_in(g, sp.len()) && tree_guess(g, c) == Some(x) && #[trigger] strategy_tree(sp, slots, g, c) is Ok
            ==> strategy_tree(sp, slots, g, c)->Ok_0.total >= lower
}

/// Empty states add nothing to the sum of counting bounds.
proof fn lemma_bounds_nonempty(s: Seq<Seq<u16>>, br: nat)
    ensures
        bounds_sum(lens_of(s.filter(|b: Seq<u16>| b.len() > 0)), br) == bounds_sum(lens_of(s), br),
    decreases s.len(),
{
    reveal(Seq::filter);
    if s.len() > 0 {
        lemma_bounds_nonempty(s.drop_last(), br);
        assert(lens_of(s).drop_last() =~= lens_of(s.drop_last()));
        let sub = s.drop_last().filter(|b: Seq<u16>| b.len() > 0);
        if s.last().len() > 0 {
            assert(lens_of(sub.push(s.last())).drop_last() =~= lens_of(sub));
        } else {
            assert(theoretical_lower_spec(0, br) == 0);
        }
    }
}

/// A forest with a state no smaller than its bound cannot be followed.
proof fn lemma_forest_blocked(
    sp: Seq<Seq<u8>>,
    slots: nat,
    gs: Map<Seq<u16>, u16>,
    chs: Seq<Seq<u16>>,
    bound: nat,
    j: int,
)
    requires
        0 <= j < chs.len(),
        chs[j].len() >= bound,
    ensures
        strategy_forest(sp, slots, gs, chs, bound) is Err,
    decreases chs.len(),
{
    if j < chs.len() - 1 {
        lemma_forest_blocked(sp, slots, gs, chs.drop_last(), bound, j);
    }
}

/// A guess one of whose buckets is all of `c` leads nowhere.
pub proof fn lemma_no_progress_guess(sp: Seq<Seq<u8>>, slots: nat, c: Seq<u16>, x: u16, f: int)
    requires
        0 <= f < 25,
        f != slots * 5,
        bucket(sp, slots, c, x as int, f).len() == c.len(),
        c.len() >= 1,
    ensures
        sound_via(sp, slots, c, x, 0),
        forall|l: nat| sound_via(sp, slots, c, x, l),
{
    let all = Seq::new(25, |q: int| bucket(sp, slots, c, x as int, q));
    let pred = |b: Seq<u16>| b.len() > 0;
    all.lemma_filter_contains(pred, f);
    let chs = children_spec(sp, slots, c, x as int);
    assert(chs.contains(all[f]));
    let j = choose|j: int| 0 <= j < chs.len() && chs[j] == all[f];
    assert forall|g: Map<Seq<u16>, u16>| tree_guess(g, c) == Some(x) implies #[trigger] strategy_tree(
        sp,
        slots,
        g,
        c,
    ) is Err by {
        lemma_forest_blocked(sp, slots, g, chs, c.len(), j);
    }
}

/// Every strategy for `c` that starts with guess `x` costs at least `c`'s
/// size plus the counting bounds of the buckets of `x`.
pub proof fn lemma_guess_bound(sp: Seq<Seq<u8>>, slots: nat, c: Seq<u16>, x: u16)
    requires
        shaped(sp, slots, c),
        distinct_codes(sp, c),
        (x as int) < sp.len(),
        1 <= c.len() <= 1296,
    ensures
        sound_via(
            sp,
            slots,
            c,
            x,
            c.len() + bounds_sum(
                lens_of(Seq::new(25, |f: int| bucket(sp, slots, c, x as int, f))),
                possible_count(slots, 25),
            ),
        ),
{
    let all = Seq::new(25, |f: int| bucket(sp, slots, c, x as int, f));
    let br = possible_count(slots, 25);
    let chs = children_spec(sp, slots, c, x as int);
    lemma_children_shaped(sp, slots, c, x as int);
    lemma_bounds_nonempty(all, br);
    assert forall|g: Map<Seq<u16>, u16>|
        guesses_in(g, sp.len()) && tree_guess(g, c) == Some(x) && #[trigger] strategy_tree(sp, slots, g, c) is Ok
        implies strategy_tree(sp, slots, g, c)->Ok_0.total >= c.len() + bounds_sum(lens_of(all), br) by {
        lemma_forest_cost(sp, slots, g, chs, c.len());
    }
}

/// A smaller bound is sound too.
pub proof fn lemma_sound_via_weaken(sp: Seq<Seq<u8>>, slots: nat, c: Seq<u16>, x: u16, l1: nat, l2: nat)
    requires
        sound_via(sp, slots, c, x, l1),
        l2 <= l1,
    ensures
        sound_via(sp, slots, c, x, l2),
{
    assert forall|g: Map<Seq<u16>, u16>|
        guesses_in(g, sp.len()) && tree_guess(g, c) == Some(x) && #[trigger] strategy_tree(sp, slots, g, c) is Ok
        implies strategy_tree(sp, slots, g, c)->Ok_0.total >= l2 by {}
}

/// The sum of `ls` over the states `chs[0..k)`.
pub open spec fn sum_to(chs: Seq<Seq<u16>>, k: int, ls: Map<Seq<u16>, nat>) -> nat
    decreases k,
{
    if k <= 0 {
        0
    } else {
        sum_to(chs, k - 1, ls) + ls[chs[k - 1]]
    }
}

/// The sum of `ls` over the states `chs[k..]`.
pub open spec fn sum_from(chs: Seq<Seq<u16>>, k: int, ls: Map<Seq<u16>, nat>) -> nat
    decreases chs.len() - k,
{
    if k < 0 || k >= chs.len() {
        0
    } else {
        ls[chs[k]] + sum_from(chs, k + 1, ls)
    }
}

/// The prefix and the rest make up the whole sum.
pub proof fn lemma_sum_split(chs: Seq<Seq<u16>>, k: int, ls: Map<Seq<u16>, nat>)
    requires
        0 <= k <= chs.len(),
    ensures
        sum_to(chs, k, ls) + sum_from(chs, k, ls) == sum_to(chs, chs.len() as int, ls),
    decreases chs.len() - k,
{
    if k < chs.len() {
        lemma_sum_split(chs, k + 1, ls);
    }
}

/// Sums over states on which two bound maps agree are equal.
pub proof fn lemma_sum_agree(chs: Seq<Seq<u16>>, a: int, ls1: Map<Seq<u16>, nat>, ls2: Map<Seq<u16>, nat>)
    requires
        0 <= a <= chs.len(),
        forall|j: int| 0 <= j < chs.len() && j != a ==> #[trigger] ls1[chs[j]] == ls2[chs[j]],
    ensures
        sum_to(chs, a, ls1) == sum_to(chs, a, ls2),
        sum_from(chs, a + 1, ls1) == sum_from(chs, a + 1, ls2),
{
    lemma_sum_to_agree(chs, a, ls1, ls2, a);
    lemma_sum_from_agree(chs, a + 1, ls1, ls2, a);
}

proof fn lemma_sum_to_agree(chs: Seq<Seq<u16>>, k: int, ls1: Map<Seq<u16>, nat>, ls2: Map<Seq<u16>, nat>, a: int)
    requires
        k <= a,
        a <= chs.len(),
        forall|j: int| 0 <= j < chs.len() && j != a ==> #[trigger] ls1[chs[j]] == ls2[chs[j]],
    ensures
        sum_to(chs, k, ls1) == sum_to(chs, k, ls2),
    decreases k,
{
    if k > 0 {
        lemma_sum_to_agree(chs, k - 1, ls1, ls2, a);
        assert(ls1[chs[k - 1]] == ls2[chs[k - 1]]);
    }
}

proof fn lemma_sum_from_agree(chs: Seq<Seq<u16>>, k: int, ls1: Map<Seq<u16>, nat>, ls2: Map<Seq<u16>, nat>, a: int)
    requires
        k > a,
        forall|j: int| 0 <= j < chs.len() && j != a ==> #[trigger] ls1[chs[j]] == ls2[chs[j]],
    ensures
        sum_from(chs, k, ls1) == sum_from(chs, k, ls2),
    decreases chs.len() - k,
{
    if k >= 0 && k < chs.len() {
        lemma_sum_from_agree(chs, k + 1, ls1, ls2, a);
        assert(ls1[chs[k]] == ls2[chs[k]]);
    }
}

/// Adds the bound of a state.
pub open spec fn add_bound(ls: Map<Seq<u16>, nat>) -> spec_fn(nat, Seq<u16>) -> nat {
    |acc: nat, x: Seq<u16>| acc + ls[x]
}

proof fn lemma_sum_fold(chs: Seq<Seq<u16>>, ls: Map<Seq<u16>, nat>)
    ensures
        sum_to(chs, chs.len() as int, ls) == chs.fold_left(0nat, add_bound(ls)),
    decreases chs.len(),
{
    if chs.len() > 0 {
        lemma_sum_fold(chs.drop_last(), ls);
        lemma_sum_prefix(chs, chs.len() - 1, ls);
    }
}

proof fn lemma_sum_prefix(chs: Seq<Seq<u16>>, k: int, ls: Map<Seq<u16>, nat>)
    requires
        0 <= k <= chs.len(),
    ensures
        sum_to(chs.take(k), k, ls) == sum_to(chs, k, ls),
    decreases k,
{
    if k > 0 {
        lemma_sum_prefix(chs, k - 1, ls);
        lemma_sum_to_take(chs.take(k), k - 1, ls);
        assert(chs.take(k).take(k - 1) =~= chs.take(k - 1));
        lemma_sum_prefix_eq(chs.take(k), chs, k - 1, ls);
    }
}

proof fn lemma_sum_to_take(chs: Seq<Seq<u16>>, k: int, ls: Map<Seq<u16>, nat>)
    requires
        0 <= k <= chs.len(),
    ensures
        sum_to(chs.take(k), k, ls) == sum_to(chs, k, ls),
{
    lemma_sum_prefix_eq(chs.take(k), chs, k, ls);
}

proof fn lemma_sum_prefix_eq(a: Seq<Seq<u16>>, b: Seq<Seq<u16>>, k: int, ls: Map<Seq<u16>, nat>)
    requires
        0 <= k <= a.len(),
        k <= b.len(),
        forall|j: int| 0 <= j < k ==> a[j] == b[j],
    ensures
        sum_to(a, k, ls) == sum_to(b, k, ls),
    decreases k,
{
    if k > 0 {
        lemma_sum_prefix_eq(a, b, k - 1, ls);
    }
}

/// The order of the states does not change the sum.
pub proof fn lemma_sum_order(a: Seq<Seq<u16>>, b: Seq<Seq<u16>>, ls: Map<Seq<u16>, nat>)
    requires
        a.to_multiset() == b.to_multiset(),
    ensures
        sum_to(a, a.len() as int, ls) == sum_to(b, b.len() as int, ls),
{
    lemma_sum_fold(a, ls);
    lemma_sum_fold(b, ls);
    assert(vstd::seq_lib::commutative_foldl(add_bound(ls)));
    lemma_fold_left_permutation(a, b, add_bound(ls), 0nat);
}

/// A followed forest costs at least the sum of sound bounds of its states.
proof fn lemma_forest_sound(
    sp: Seq<Seq<u8>>,
    slots: nat,
    gs: Map<Seq<u16>, u16>,
    chs: Seq<Seq<u16>>,
    bound: nat,
    ls: Map<Seq<u16>, nat>,
)
    requires
        guesses_in(gs, sp.len()),
        forall|x: Seq<u16>| #[trigger] chs.contains(x) ==> sound_lower(sp, slots, x, ls[x]),
    ensures
        strategy_forest(sp, slots, gs, chs, bound) matches Ok(fs) ==> fs.total >= sum_to(chs, chs.len() as int, ls),
    decreases chs.len(),
{
    if chs.len() > 0 {
        let d = chs.drop_last();
        assert forall|x: Seq<u16>| #[trigger] d.contains(x) implies sound_lower(sp, slots, x, ls[x]) by {
            let q = choose|q: int| 0 <= q < d.len() && d[q] == x;
            assert(chs.contains(chs[q]));
        }
        lemma_forest_sound(sp, slots, gs, d, bound, ls);
        lemma_sum_prefix_eq(d, chs, d.len() as int, ls);
        assert(chs.contains(chs.last()));
        if strategy_forest(sp, slots, gs, chs, bound) is Ok {
            assert(strategy_tree(sp, slots, gs, chs.last()) is Ok);
        }
    }
}

/// Every strategy from `c` through guess `x`, whose buckets are `chs` in
/// some order with sound bounds `ls`, costs at least `c`'s size plus their sum.
pub proof fn lemma_via_sum(
    sp: Seq<Seq<u8>>,
    slots: nat,
    c: Seq<u16>,
    x: u16,
    chs: Seq<Seq<u16>>,
    ls: Map<Seq<u16>, nat>,
    l: nat,
)
    requires
        chs.to_multiset() == children_spec(sp, slots, c, x as int).to_multiset(),
        forall|y: Seq<u16>| #[trigger] chs.contains(y) ==> sound_lower(sp, slots, y, ls[y]),
        l <= c.len() + sum_to(chs, chs.len() as int, ls),
    ensures
        sound_via(sp, slots, c, x, l),
{
    broadcast use vstd::seq_lib::group_to_multiset_ensures;

    let cs = children_spec(sp, slots, c, x as int);
    assert forall|y: Seq<u16>| #[trigger] cs.contains(y) implies sound_lower(sp, slots, y, ls[y]) by {
        assert(cs.to_multiset().count(y) > 0);
        assert(chs.contains(y));
    }
    lemma_sum_order(cs, chs, ls);
    assert forall|g: Map<Seq<u16>, u16>|
        guesses_in(g, sp.len()) && tree_guess(g, c) == Some(x) && #[trigger] strategy_tree(sp, slots, g, c) is Ok
        implies strategy_tree(sp, slots, g, c)->Ok_0.total >= l by {
        lemma_forest_sound(sp, slots, g, cs, c.len(), ls);
    }
}

/// The totals of the strategies `gs` gives below each state.
pub open spec fn tree_totals(sp: Seq<Seq<u8>>, slots: nat, gs: Map<Seq<u16>, u16>) -> Map<Seq<u16>, nat> {
    Map::new(|y: Seq<u16>| true, |y: Seq<u16>| strategy_tree(sp, slots, gs, y)->Ok_0.total)
}

/// A forest can be followed exactly when each of its states is smaller than
/// the bound and can be followed; it then costs the sum of their totals.
proof fn lemma_forest_ok(sp: Seq<Seq<u8>>, slots: nat, gs: Map<Seq<u16>, u16>, chs: Seq<Seq<u16>>, bound: nat)
    ensures
        strategy_forest(sp, slots, gs, chs, bound) is Ok <==> forall|y: Seq<u16>| #[trigger] chs.contains(y) ==> y.len()
            < bound && strategy_tree(sp, slots, gs, y) is Ok,
        strategy_forest(sp, slots, gs, chs, bound) is Ok ==> strategy_forest(sp, slots, gs, chs, bound)->Ok_0.total
            == sum_to(chs, chs.len() as int, tree_totals(sp, slots, gs)),
    decreases chs.len(),
{
    if chs.len() > 0 {
        let d = chs.drop_last();
        lemma_forest_ok(sp, slots, gs, d, bound);
        lemma_sum_prefix_eq(d, chs, d.len() as int, tree_totals(sp, slots, gs));
        assert(chs.contains(chs.last()));
        assert((forall|y: Seq<u16>| #[trigger] chs.contains(y) ==> y.len() < bound && strategy_tree(sp, slots, gs, y) is Ok)
            ==> (forall|y: Seq<u16>| #[trigger] d.contains(y) ==> y.len() < bound && strategy_tree(sp, slots, gs, y) is Ok)) by {
            assert forall|y: Seq<u16>| #[trigger] d.contains(y) implies chs.contains(y) by {
                let q = choose|q: int| 0 <= q < d.len() && d[q] == y;
                assert(chs[q] == y);
            }
        }
        assert((forall|y: Seq<u16>| #[trigger] d.contains(y) ==> y.len() < bound && strategy_tree(sp, slots, gs, y) is Ok)
            && chs.last().len() < bound && strategy_tree(sp, slots, gs, chs.last()) is Ok ==> (forall|y: Seq<u16>| #[trigger] chs.contains(y)
            ==> y.len() < bound && strategy_tree(sp, slots, gs, y) is Ok)) by {
            assert forall|y: Seq<u16>| #[trigger] chs.contains(y) && y != chs.last() implies d.contains(y) by {
                let q = choose|q: int| 0 <= q < chs.len() && chs[q] == y;
                assert(q != chs.len() - 1);
                assert(d[q] == y);
            }
        }
    }
}

/// Guesses whose buckets are the same states, in any order, cost the same:
/// a bound for every strategy through `y` holds for every one through `x`.
pub proof fn lemma_via_twin(sp: Seq<Seq<u8>>, slots: nat, c: Seq<u16>, x: u16, y: u16, l: nat)
    requires
        children_spec(sp, slots, c, x as int).to_multiset() == children_spec(sp, slots, c, y as int).to_multiset(),
        sound_via(sp, slots, c, y, l),
        c.len() >= 2,
        (y as int) < sp.len(),
    ensures
        sound_via(sp, slots, c, x, l),
{
    broadcast use vstd::seq_lib::group_to_multiset_ensures;

    let cx = children_spec(sp, slots, c, x as int);
    let cy = children_spec(sp, slots, c, y as int);
    assert forall|g: Map<Seq<u16>, u16>|
        guesses_in(g, sp.len()) && tree_guess(g, c) == Some(x) && #[trigger] strategy_tree(sp, slots, g, c) is Ok
        implies strategy_tree(sp, slots, g, c)->Ok_0.total >= l by {
        let g2 = g.insert(c, y);
        assert(guesses_in(g2, sp.len()));
        assert(tree_guess(g2, c) == Some(y));
        lemma_children_subset(sp, slots, c, x as int);
        lemma_children_subset(sp, slots, c, y as int);
        assert forall|ch: Seq<u16>| #[trigger] cx.contains(ch) && ch.len() < c.len() implies strategy_tree(sp, slots, g2, ch) == strategy_tree(
            sp,
            slots,
            g,
            ch,
        ) by {
            {
                assert(agree_below(g, g2, ch)) by {
                    assert forall|k: Seq<u16>| #[trigger] within(k, ch) && 2 <= k.len() <= ch.len() implies g.contains_key(k)
                        == g2.contains_key(k) && (g.contains_key(k) ==> g[k] == g2[k]) by {
                        assert(k != c);
                    }
                }
                assert(within(ch, ch)) by {
                    assert forall|i: int| 0 <= i < ch.len() implies ch.contains(#[trigger] ch[i]) by {}
                }
                lemma_tree_local(sp, slots, g, g2, ch, ch);
            }
        }
        lemma_forest_ok(sp, slots, g, cx, c.len());
        lemma_forest_ok(sp, slots, g2, cy, c.len());
        assert(strategy_forest(sp, slots, g, cx, c.len()) is Ok);
        assert forall|ch: Seq<u16>| #[trigger] cy.contains(ch) implies ch.len() < c.len() && strategy_tree(sp, slots, g2, ch) is Ok by {
            assert(cy.to_multiset().count(ch) > 0);
            assert(cx.contains(ch));
        }
        let t1 = tree_totals(sp, slots, g);
        let t2 = tree_totals(sp, slots, g2);
        assert forall|j: int| 0 <= j < cy.len() && j != -1 implies #[trigger] t2[cy[j]] == t1[cy[j]] by {
            assert(cy.contains(cy[j]));
            assert(cy.to_multiset().count(cy[j]) > 0);
            assert(cx.contains(cy[j]));
        }
        lemma_sum_agree_all(cy, t2, t1);
        lemma_sum_order(cx, cy, t1);
        assert(strategy_forest(sp, slots, g2, cy, c.len()) is Ok);
        assert(strategy_tree(sp, slots, g2, c) is Ok);
        assert(strategy_tree(sp, slots, g2, c)->Ok_0.total == strategy_tree(sp, slots, g, c)->Ok_0.total);
        assert(strategy_tree(sp, slots, g2, c)->Ok_0.total >= l);
    }
}

proof fn lemma_sum_agree_all(chs: Seq<Seq<u16>>, ls1: Map<Seq<u16>, nat>, ls2: Map<Seq<u16>, nat>)
    requires
        forall|j: int| 0 <= j < chs.len() && j != -1 ==> #[trigger] ls1[chs[j]] == ls2[chs[j]],
    ensures
        sum_to(chs, chs.len() as int, ls1) == sum_to(chs, chs.len() as int, ls2),
{
    lemma_sum_to_agree(chs, chs.len() as int, ls1, ls2, chs.len() as int);
}

/// A guess with a bucket as large as `c` leads nowhere.
pub proof fn lemma_blocked_child(sp: Seq<Seq<u8>>, slots: nat, c: Seq<u16>, x: u16, j: int)
    requires
        0 <= j < children_spec(sp, slots, c, x as int).len(),
        children_spec(sp, slots, c, x as int)[j].len() >= c.len(),
    ensures
        forall|l: nat| sound_via(sp, slots, c, x, l),
{
    let chs = children_spec(sp, slots, c, x as int);
    assert forall|g: Map<Seq<u16>, u16>| tree_guess(g, c) == Some(x) implies #[trigger] strategy_tree(
        sp,
        slots,
        g,
        c,
    ) is Err by {
        lemma_forest_blocked(sp, slots, g, chs, c.len(), j);
    }
}

/// The counting bounds of one and of two candidates.
pub proof fn lemma_tl_small(br: nat)
    requires
        1 <= br <= usize::MAX,
    ensures
        theoretical_lower_spec(1, br) == 1,
        theoretical_lower_spec(2, br) == 3,
{
    assert(sat_mul(1, br) == br);
    reveal_with_fuel(tl_from, 3);
}

/// A smaller bound is sound too.
pub proof fn lemma_sound_lower_weaken(sp: Seq<Seq<u8>>, slots: nat, c: Seq<u16>, l1: nat, l2: nat)
    requires
        sound_lower(sp, slots, c, l1),
        l2 <= l1,
    ensures
        sound_lower(sp, slots, c, l2),
{
    assert forall|g: Map<Seq<u16>, u16>| guesses_in(g, sp.len()) && #[trigger] strategy_tree(sp, slots, g, c) is Ok
        implies strategy_tree(sp, slots, g, c)->Ok_0.total >= l2 by {}
}

/// A bound that holds through every guess of the space holds for `c`.
pub proof fn lemma_sound_lower_from_vias(sp: Seq<Seq<u8>>, slots: nat, c: Seq<u16>, l: nat)
    requires
        c.len() >= 2,
        forall|x: u16| (x as int) < sp.len() ==> #[trigger] sound_via(sp, slots, c, x, l),
    ensures
        sound_lower(sp, slots, c, l),
{
    assert forall|g: Map<Seq<u16>, u16>| guesses_in(g, sp.len()) && #[trigger] strategy_tree(sp, slots, g, c) is Ok
        implies strategy_tree(sp, slots, g, c)->Ok_0.total >= l by {
        assert(g.contains_key(c));
        let x = g[c];
        assert(sound_via(sp, slots, c, x, l));
        assert(tree_guess(g, c) == Some(x));
    }
}

/// Ids with different codes are different ids.
pub proof fn lemma_distinct_no_dup(sp: Seq<Seq<u8>>, c: Seq<u16>)
    requires
        distinct_codes(sp, c),
    ensures
        c.no_duplicates(),
{
    assert forall|i: int, j: int| 0 <= i < c.len() && 0 <= j < c.len() && i != j implies c[i] != c[j] by {
        if i < j {
            assert(sp[c[i] as int] != sp[c[j] as int]);
        } else {
            assert(sp[c[j] as int] != sp[c[i] as int]);
        }
    }
}

/// Two guesses with the same buckets, in any order.
pub open spec fn buckets_same(sp: Seq<Seq<u8>>, slots: nat, c: Seq<u16>, x: u16, y: u16) -> bool {
    children_spec(sp, slots, c, x as int).to_multiset() == children_spec(sp, slots, c, y as int).to_multiset()
}

/// The sum of `len * (len + 1) / 2` over the states.
pub open spec fn tri_sum(chs: Seq<Seq<u16>>) -> nat
    decreases chs.len(),
{
    if chs.len() == 0 {
        0
    } else {
        tri_sum(chs.drop_last()) + chs.last().len() * (chs.last().len() + 1) / 2
    }
}

/// The sum of `len * len` over the states.
pub open spec fn sq_sum(chs: Seq<Seq<u16>>) -> nat
    decreases chs.len(),
{
    if chs.len() == 0 {
        0
    } else {
        sq_sum(chs.drop_last()) + chs.last().len() * chs.last().len()
    }
}

proof fn lemma_tri_sum_bound(chs: Seq<Seq<u16>>)
    ensures
        tri_sum(chs) <= sum_lens(chs) * (sum_lens(chs) + 1) / 2,
    decreases chs.len(),
{
    if chs.len() > 0 {
        lemma_tri_sum_bound(chs.drop_last());
        let a = sum_lens(chs.drop_last());
        let b = chs.last().len();
        assert(a * (a + 1) / 2 + b * (b + 1) / 2 <= (a + b) * (a + b + 1) / 2) by (nonlinear_arith);
    }
}

proof fn lemma_sq_sum_bound(chs: Seq<Seq<u16>>, m: nat)
    requires
        forall|x: Seq<u16>| #[trigger] chs.contains(x) ==> x.len() <= m,
    ensures
        sq_sum(chs) <= m * sum_lens(chs),
    decreases chs.len(),
{
    if chs.len() > 0 {
        assert forall|x: Seq<u16>| #[trigger] chs.drop_last().contains(x) implies x.len() <= m by {
            let q = choose|q: int| 0 <= q < chs.drop_last().len() && chs.drop_last()[q] == x;
            assert(chs.contains(chs[q]));
        }
        lemma_sq_sum_bound(chs.drop_last(), m);
        assert(chs.contains(chs.last()));
        let b = chs.last().len();
        assert(b * b <= m * b) by (nonlinear_arith)
            requires
                b <= m,
        ;
        assert(m * sum_lens(chs.drop_last()) + m * b == m * (sum_lens(chs.drop_last()) + b)) by (nonlinear_arith);
    }
}

/// The guesses that always try the first candidate left.
pub open spec fn first_candidate_guesses(n: nat) -> Map<Seq<u16>, u16> {
    Map::new(|k: Seq<u16>| k.len() > 0 && (k[0] as nat) < n, |k: Seq<u16>| k[0])
}

/// Trying the first candidate left each time finds every candidate of a
/// state of different codes, in `len * (len + 1) / 2` submissions at most.
pub proof fn lemma_first_candidate_tree(sp: Seq<Seq<u8>>, slots: nat, c: Seq<u16>)
    requires
        shaped(sp, slots, c),
        distinct_codes(sp, c),
        1 <= c.len(),
    ensures
        strategy_tree(sp, slots, first_candidate_guesses(sp.len()), c) matches Ok(t) && t.total <= c.len() * (c.len()
            + 1) / 2,
    decreases c.len(), 1nat, 0nat,
{
    let gs = first_candidate_guesses(sp.len());
    let g = c[0];
    assert(tree_guess(gs, c) == Some(g));
    let chs = children_spec(sp, slots, c, g as int);
    lemma_children_shaped(sp, slots, c, g as int);
    lemma_bucket_total(sp, slots, c, g as int);
    lemma_sum_lens_nonempty(Seq::new(25, |f: int| bucket(sp, slots, c, g as int, f)));
    assert(sp[g as int].len() == slots);
    crate::judge::lemma_feedback_self(sp[g as int]);
    let pt = |id: u16| fb_code(sp, g as int, id as int) == slots * 5;
    assert(found_by(sp, slots, c, g as int) == c.filter(pt));
    crate::symmetry::lemma_filter_has(c, pt, g);
    assert(c.contains(g));
    assert(found_by(sp, slots, c, g as int).len() >= 1) by {
        let i = choose|i: int| 0 <= i < found_by(sp, slots, c, g as int).len() && found_by(sp, slots, c, g as int)[i] == g;
    }
    assert forall|x: Seq<u16>| #[trigger] chs.contains(x) implies x.len() < c.len() by {
        lemma_len_le_sum(chs, x);
    }
    lemma_first_candidate_forest(sp, slots, chs, c.len());
    lemma_tri_sum_bound(chs);
    let s1 = sum_lens(chs);
    let l = c.len();
    assert(l + s1 * (s1 + 1) / 2 <= l * (l + 1) / 2) by (nonlinear_arith)
        requires
            s1 + 1 <= l,
    ;
}

/// A state of a list is no longer than the list's total length.
proof fn lemma_len_le_sum(chs: Seq<Seq<u16>>, x: Seq<u16>)
    requires
        chs.contains(x),
    ensures
        x.len() <= sum_lens(chs),
    decreases chs.len(),
{
    if chs.last() != x {
        let q = choose|q: int| 0 <= q < chs.len() && chs[q] == x;
        assert(chs.drop_last()[q] == x);
        lemma_len_le_sum(chs.drop_last(), x);
    }
}

proof fn lemma_first_candidate_forest(sp: Seq<Seq<u8>>, slots: nat, chs: Seq<Seq<u16>>, bound: nat)
    requires
        forall|x: Seq<u16>| #[trigger] chs.contains(x) ==> shaped(sp, slots, x) && distinct_codes(sp, x) && 1 <= x.len()
            < bound,
    ensures
        strategy_forest(sp, slots, first_candidate_guesses(sp.len()), chs, bound) matches Ok(fs) && fs.total <= tri_sum(chs),
    decreases bound, 0nat, chs.len(),
{
    if chs.len() > 0 {
        assert forall|x: Seq<u16>| #[trigger] chs.drop_last().contains(x) implies shaped(sp, slots, x) && distinct_codes(
            sp,
            x,
        ) && 1 <= x.len() < bound by {
            let q = choose|q: int| 0 <= q < chs.drop_last().len() && chs.drop_last()[q] == x;
            assert(chs.contains(chs[q]));
        }
        lemma_first_candidate_forest(sp, slots, chs.drop_last(), bound);
        assert(chs.contains(chs.last()));
        lemma_first_candidate_tree(sp, slots, chs.last());
    }
}

/// Any followed strategy for a state of different codes takes at most
/// `len * len` submissions, and at least one for its worst candidate.
pub proof fn lemma_tree_upper(sp: Seq<Seq<u8>>, slots: nat, gs: Map<Seq<u16>, u16>, c: Seq<u16>)
    requires
        shaped(sp, slots, c),
        distinct_codes(sp, c),
        guesses_in(gs, sp.len()),
        1 <= c.len(),
    ensures
        strategy_tree(sp, slots, gs, c) matches Ok(t) ==> t.total <= c.len() * c.len() && t.worst >= 1,
    decreases c.len(), 1nat, 0nat,
{
    match tree_guess(gs, c) {
        None => {},
        Some(g) => {
            assert((g as int) < sp.len()) by {
                if c.len() != 1 {
                    assert(gs.contains_key(c));
                }
            }
            let chs = children_spec(sp, slots, c, g as int);
            lemma_children_shaped(sp, slots, c, g as int);
            lemma_tree_upper_forest(sp, slots, gs, chs, c.len());
            if strategy_forest(sp, slots, gs, chs, c.len()) is Ok {
                lemma_bucket_total(sp, slots, c, g as int);
                lemma_sum_lens_nonempty(Seq::new(25, |f: int| bucket(sp, slots, c, g as int, f)));
                let l = c.len();
                lemma_sq_sum_bound(chs, (l - 1) as nat);
                let s1 = sum_lens(chs);
                assert(l + (l - 1) * s1 <= l * l) by (nonlinear_arith)
                    requires
                        s1 <= l,
                        l >= 1,
                ;
            }
        },
    }
}

proof fn lemma_tree_upper_forest(sp: Seq<Seq<u8>>, slots: nat, gs: Map<Seq<u16>, u16>, chs: Seq<Seq<u16>>, bound: nat)
    requires
        forall|x: Seq<u16>| #[trigger] chs.contains(x) ==> shaped(sp, slots, x) && distinct_codes(sp, x) && 1 <= x.len(),
        guesses_in(gs, sp.len()),
    ensures
        strategy_forest(sp, slots, gs, chs, bound) matches Ok(fs) ==> fs.total <= sq_sum(chs) && fs.worst >= 1
            && forall|x: Seq<u16>| #[trigger] chs.contains(x) ==> x.len() < bound,
    decreases bound, 0nat, chs.len(),
{
    if chs.len() > 0 {
        assert forall|x: Seq<u16>| #[trigger] chs.drop_last().contains(x) implies shaped(sp, slots, x) && distinct_codes(
            sp,
            x,
        ) && 1 <= x.len() by {
            let q = choose|q: int| 0 <= q < chs.drop_last().len() && chs.drop_last()[q] == x;
            assert(chs.contains(chs[q]));
        }
        lemma_tree_upper_forest(sp, slots, gs, chs.drop_last(), bound);
        assert(chs.contains(chs.last()));
        if chs.last().len() < bound {
            lemma_tree_upper(sp, slots, gs, chs.last());
        }
        if strategy_forest(sp, slots, gs, chs, bound) is Ok {
            assert forall|x: Seq<u16>| #[trigger] chs.contains(x) implies x.len() < bound by {
                if x != chs.last() {
                    let q = choose|q: int| 0 <= q < chs.len() && chs[q] == x;
                    assert(chs.drop_last()[q] == x);
                    assert(chs.drop_last().contains(x));
                }
            }
        }
    }
}

} // verus!
