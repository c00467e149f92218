//! Symmetries of the answer space: a renaming of codes that keeps every
//! feedback carries each strategy for the whole space to one of the same
//! cost, so guesses related by such renamings are equally good first moves.
use vstd::prelude::*;

use crate::bound::{guesses_in, sound_via};
use crate::judge::{count_color, exact_matches, feedback, overlap, overlap_upto, min_nat};
use crate::solver::{lemma_odometer_injective, lemma_odometer_split, lemma_power_positive, odometer_code, odometer_space, power};
use crate::policy::id_le;
use crate::optimal::{count_signature, first_of_class, root_guess_spec, all_ids, bucket, children_spec, fb_code, strategy_forest, strategy_tree, tree_guess};

verus! {

/// `p` renames the ids below `n`: it is its own inverse there and keeps the
/// feedback between any two codes.
pub open spec fn symmetry(sp: Seq<Seq<u8>>, p: spec_fn(u16) -> u16) -> bool {
    &&& forall|a: u16| (a as int) < sp.len() ==> (#[trigger] p(a) as int) < sp.len()
    &&& forall|a: u16| (a as int) < sp.len() ==> #[trigger] p(p(a)) == a
    &&& forall|a: u16, b: u16|
        (a as int) < sp.len() && (b as int) < sp.len() ==> #[trigger] fb_code(sp, p(a) as int, p(b) as int) == fb_code(
            sp,
            a as int,
            b as int,
        )
}

/// Strictly increasing ids.
pub open spec fn increasing(k: Seq<u16>) -> bool {
    forall|i: int, j: int| 0 <= i < j < k.len() ==> #[trigger] k[i] < #[trigger] k[j]
}

/// `k` holds exactly the renamings of the ids of `k0`.
pub open spec fn renamed(p: spec_fn(u16) -> u16, n: nat, k0: Seq<u16>, k: Seq<u16>) -> bool {
    forall|b: u16| #[trigger] k.contains(b) <==> ((b as int) < n && k0.contains(p(b)))
}

/// Both increasing, and `k` is the renaming of `k0`.
pub open spec fn paired(p: spec_fn(u16) -> u16, n: nat, k0: Seq<u16>, k: Seq<u16>) -> bool {
    &&& increasing(k0)
    &&& increasing(k)
    &&& renamed(p, n, k0, k)
    &&& forall|i: int| 0 <= i < k0.len() ==> (#[trigger] k0[i] as int) < n
}

/// The increasing set of ids whose renaming is `k`.
pub open spec fn preimage(p: spec_fn(u16) -> u16, n: nat, k: Seq<u16>) -> Seq<u16> {
    choose|k0: Seq<u16>| paired(p, n, k0, k)
}

/// The guesses `g` carried along the renaming `p`.
pub open spec fn carried(g: Map<Seq<u16>, u16>, p: spec_fn(u16) -> u16, n: nat) -> Map<Seq<u16>, u16> {
    Map::new(|k: Seq<u16>| g.contains_key(preimage(p, n, k)), |k: Seq<u16>| p(g[preimage(p, n, k)]))
}

/// Increasing sequences with the same ids are equal.
proof fn lemma_increasing_unique(x: Seq<u16>, y: Seq<u16>)
    requires
        increasing(x),
        increasing(y),
        forall|v: u16| #![trigger x.contains(v)] #![trigger y.contains(v)] x.contains(v) <==> y.contains(v),
    ensures
        x == y,
    decreases x.len() + y.len(),
{
    if x.len() == 0 {
        if y.len() > 0 {
            assert(y.contains(y[0]));
        }
        assert(x =~= y);
    } else if y.len() == 0 {
        assert(x.contains(x[0]));
    } else {
        let a = x.last();
        let b = y.last();
        assert(x.contains(a));
        assert(y.contains(b));
        let i = choose|i: int| 0 <= i < y.len() && y[i] == a;
        let j = choose|j: int| 0 <= j < x.len() && x[j] == b;
        if i < y.len() - 1 {
            assert(y[i] < y[y.len() - 1]);
        }
        if j < x.len() - 1 {
            assert(x[j] < x[x.len() - 1]);
        }
        assert(a == b);
        let x1 = x.drop_last();
        let y1 = y.drop_last();
        assert forall|v: u16| #![trigger x1.contains(v)] #![trigger y1.contains(v)] x1.contains(v) <==> y1.contains(v) by {
            if x1.contains(v) {
                let q = choose|q: int| 0 <= q < x1.len() && x1[q] == v;
                assert(x[q] < x[x.len() - 1]);
                assert(y.contains(v));
                let r = choose|r: int| 0 <= r < y.len() && y[r] == v;
                assert(r != y.len() - 1);
                assert(y1[r] == v);
            }
            if y1.contains(v) {
                let q = choose|q: int| 0 <= q < y1.len() && y1[q] == v;
                assert(y[q] < y[y.len() - 1]);
                assert(x.contains(v));
                let r = choose|r: int| 0 <= r < x.len() && x[r] == v;
                assert(r != x.len() - 1);
                assert(x1[r] == v);
            }
        }
        lemma_increasing_unique(x1, y1);
        assert(x =~= x1.push(a));
        assert(y =~= y1.push(b));
    }
}

/// What a filter keeps.
pub proof fn lemma_filter_has<A>(s: Seq<A>, q: spec_fn(A) -> bool, v: A)
    ensures
        s.filter(q).contains(v) <==> s.contains(v) && q(v),
    decreases s.len(),
{
    reveal(Seq::filter);
    if s.len() > 0 {
        lemma_filter_has(s.drop_last(), q, v);
        let r = s.drop_last().filter(q);
        if s.contains(v) && q(v) {
            let i = choose|i: int| 0 <= i < s.len() && s[i] == v;
            if i < s.len() - 1 {
                assert(s.drop_last()[i] == v);
                let j = choose|j: int| 0 <= j < r.len() && r[j] == v;
                if q(s.last()) {
                    assert(r.push(s.last())[j] == v);
                }
            } else if q(s.last()) {
                assert(r.push(s.last())[r.len() as int] == v);
            }
        }
        if s.filter(q).contains(v) {
            let j = choose|j: int| 0 <= j < s.filter(q).len() && s.filter(q)[j] == v;
            if q(s.last()) && j == r.len() {
                assert(s[s.len() - 1] == v);
            } else {
                assert(r[j] == v);
                assert(r.contains(v));
                let i = choose|i: int| 0 <= i < s.drop_last().len() && s.drop_last()[i] == v;
                assert(s[i] == v);
            }
        }
    }
}

/// A filter keeps the order of the ids it keeps.
pub proof fn lemma_filter_increasing(s: Seq<u16>, q: spec_fn(u16) -> bool)
    requires
        increasing(s),
    ensures
        increasing(s.filter(q)),
    decreases s.len(),
{
    reveal(Seq::filter);
    if s.len() > 0 {
        let s1 = s.drop_last();
        lemma_filter_increasing(s1, q);
        let r = s1.filter(q);
        if q(s.last()) {
            assert forall|i: int, j: int| 0 <= i < j < r.push(s.last()).len() implies #[trigger] r.push(s.last())[i]
                < #[trigger] r.push(s.last())[j] by {
                if j == r.len() {
                    assert(r.contains(r[i]));
                    lemma_filter_has(s1, q, r[i]);
                    let m = choose|m: int| 0 <= m < s1.len() && s1[m] == r[i];
                    assert(s[m] < s[s.len() - 1]);
                }
            }
        }
    }
}

/// Renamed increasing sets have the same size.
proof fn lemma_paired_len(sp: Seq<Seq<u8>>, p: spec_fn(u16) -> u16, k0: Seq<u16>, k: Seq<u16>)
    requires
        symmetry(sp, p),
        paired(p, sp.len(), k0, k),
    ensures
        k.len() == k0.len(),
{
    let n = sp.len();
    assert(k0.no_duplicates()) by {
        assert forall|i: int, j: int| 0 <= i < k0.len() && 0 <= j < k0.len() && i != j implies k0[i] != k0[j] by {
            if i < j {
                assert(k0[i] < k0[j]);
            } else {
                assert(k0[j] < k0[i]);
            }
        }
    }
    assert(k.no_duplicates()) by {
        assert forall|i: int, j: int| 0 <= i < k.len() && 0 <= j < k.len() && i != j implies k[i] != k[j] by {
            if i < j {
                assert(k[i] < k[j]);
            } else {
                assert(k[j] < k[i]);
            }
        }
    }
    k0.unique_seq_to_set();
    k.unique_seq_to_set();
    let s0 = k0.to_set();
    let s1 = k.to_set();
    assert(s0.map(p) =~= s1) by {
        assert forall|b: u16| #[trigger] s1.contains(b) implies s0.map(p).contains(b) by {
            assert(k.contains(b));
            assert(k0.contains(p(b)));
            assert(p(p(b)) == b);
            assert(s0.contains(p(b)));
        }
        assert forall|b: u16| #[trigger] s0.map(p).contains(b) implies s1.contains(b) by {
            let a = choose|a: u16| s0.contains(a) && p(a) == b;
            let i = choose|i: int| 0 <= i < k0.len() && k0[i] == a;
            assert((a as int) < n);
            assert(p(b) == a);
            assert((b as int) < n);
            assert(k.contains(b));
        }
    }
    assert(vstd::relations::injective_on(p, s0)) by {
        assert forall|a1: u16, a2: u16| s0.contains(a1) && s0.contains(a2) && #[trigger] p(a1) == #[trigger] p(a2) implies a1
            == a2 by {
            let i = choose|i: int| 0 <= i < k0.len() && k0[i] == a1;
            let j = choose|j: int| 0 <= j < k0.len() && k0[j] == a2;
            assert(p(p(a1)) == a1);
            assert(p(p(a2)) == a2);
        }
    }
    vstd::set_lib::lemma_map_size(s0, s1, p);
}

/// The buckets of a pair under a guess and its renaming pair up too.
proof fn lemma_bucket_paired(
    sp: Seq<Seq<u8>>,
    slots: nat,
    p: spec_fn(u16) -> u16,
    k0: Seq<u16>,
    k: Seq<u16>,
    x0: u16,
    f: int,
)
    requires
        symmetry(sp, p),
        paired(p, sp.len(), k0, k),
        (x0 as int) < sp.len(),
    ensures
        paired(p, sp.len(), bucket(sp, slots, k0, x0 as int, f), bucket(sp, slots, k, p(x0) as int, f)),
{
    let n = sp.len();
    let b0 = bucket(sp, slots, k0, x0 as int, f);
    let b1 = bucket(sp, slots, k, p(x0) as int, f);
    if f == slots * 5 {
        assert(renamed(p, n, b0, b1));
    } else {
        let q0 = |id: u16| fb_code(sp, x0 as int, id as int) == f;
        let q1 = |id: u16| fb_code(sp, p(x0) as int, id as int) == f;
        assert(b0 == k0.filter(q0));
        assert(b1 == k.filter(q1));
        lemma_filter_increasing(k0, q0);
        lemma_filter_increasing(k, q1);
        assert forall|b: u16| #[trigger] b1.contains(b) <==> ((b as int) < n && b0.contains(p(b))) by {
            lemma_filter_has(k, q1, b);
            lemma_filter_has(k0, q0, p(b));
            if (b as int) < n {
                assert(p(p(b)) == b);
                assert(fb_code(sp, p(x0) as int, p(p(b)) as int) == fb_code(sp, x0 as int, p(b) as int));
            } else {
                assert(!k.contains(b));
            }
        }
        assert forall|i: int| 0 <= i < b0.len() implies (#[trigger] b0[i] as int) < n by {
            assert(b0.contains(b0[i]));
            lemma_filter_has(k0, q0, b0[i]);
            let j = choose|j: int| 0 <= j < k0.len() && k0[j] == b0[i];
        }
    }
}

/// Filtering two sequences of pairs by a test that agrees on each pair
/// keeps them paired, position by position.
proof fn lemma_filter_pairs(
    sp: Seq<Seq<u8>>,
    p: spec_fn(u16) -> u16,
    s0: Seq<Seq<u16>>,
    s1: Seq<Seq<u16>>,
    q: spec_fn(Seq<u16>) -> bool,
)
    requires
        s0.len() == s1.len(),
        forall|i: int| 0 <= i < s0.len() ==> paired(p, sp.len(), #[trigger] s0[i], s1[i]),
        forall|i: int| 0 <= i < s0.len() ==> q(#[trigger] s0[i]) == q(s1[i]),
    ensures
        s0.filter(q).len() == s1.filter(q).len(),
        forall|i: int| 0 <= i < s0.filter(q).len() ==> paired(p, sp.len(), #[trigger] s0.filter(q)[i], s1.filter(q)[i]),
    decreases s0.len(),
{
    reveal(Seq::filter);
    if s0.len() > 0 {
        let a0 = s0.drop_last();
        let a1 = s1.drop_last();
        assert forall|i: int| 0 <= i < a0.len() implies paired(p, sp.len(), #[trigger] a0[i], a1[i]) by {
            assert(a0[i] == s0[i] && a1[i] == s1[i]);
        }
        assert forall|i: int| 0 <= i < a0.len() implies q(#[trigger] a0[i]) == q(a1[i]) by {
            assert(a0[i] == s0[i] && a1[i] == s1[i]);
        }
        lemma_filter_pairs(sp, p, a0, a1, q);
        assert(q(s0.last()) == q(s1.last())) by {
            assert(s0.last() == s0[s0.len() - 1]);
        }
        assert(paired(p, sp.len(), s0.last(), s1.last())) by {
            assert(s0.last() == s0[s0.len() - 1]);
        }
    }
}

/// The buckets of a pair under a guess and its renaming, listed as
/// `children_spec` lists them, pair up position by position.
proof fn lemma_children_paired(
    sp: Seq<Seq<u8>>,
    slots: nat,
    p: spec_fn(u16) -> u16,
    k0: Seq<u16>,
    k: Seq<u16>,
    x0: u16,
)
    requires
        symmetry(sp, p),
        paired(p, sp.len(), k0, k),
        (x0 as int) < sp.len(),
    ensures
        children_spec(sp, slots, k0, x0 as int).len() == children_spec(sp, slots, k, p(x0) as int).len(),
        forall|i: int| 0 <= i < children_spec(sp, slots, k0, x0 as int).len() ==> paired(
            p,
            sp.len(),
            #[trigger] children_spec(sp, slots, k0, x0 as int)[i],
            children_spec(sp, slots, k, p(x0) as int)[i],
        ),
{
    let s0 = Seq::new(25, |f: int| bucket(sp, slots, k0, x0 as int, f));
    let s1 = Seq::new(25, |f: int| bucket(sp, slots, k, p(x0) as int, f));
    let q = |b: Seq<u16>| b.len() > 0;
    assert forall|i: int| 0 <= i < s0.len() implies paired(p, sp.len(), #[trigger] s0[i], s1[i]) by {
        lemma_bucket_paired(sp, slots, p, k0, k, x0, i);
    }
    assert forall|i: int| 0 <= i < s0.len() implies q(#[trigger] s0[i]) == q(s1[i]) by {
        lemma_bucket_paired(sp, slots, p, k0, k, x0, i);
        lemma_paired_len(sp, p, s0[i], s1[i]);
    }
    lemma_filter_pairs(sp, p, s0, s1, q);
    assert(children_spec(sp, slots, k0, x0 as int) == s0.filter(q));
    assert(children_spec(sp, slots, k, p(x0) as int) == s1.filter(q));
}

/// The preimage of the renaming of an increasing set is that set.
proof fn lemma_preimage(sp: Seq<Seq<u8>>, p: spec_fn(u16) -> u16, k0: Seq<u16>, k: Seq<u16>)
    requires
        symmetry(sp, p),
        paired(p, sp.len(), k0, k),
    ensures
        preimage(p, sp.len(), k) == k0,
{
    let n = sp.len();
    let k1 = preimage(p, n, k);
    assert(paired(p, n, k1, k));
    assert forall|a: u16| #![trigger k0.contains(a)] #![trigger k1.contains(a)] k0.contains(a) <==> k1.contains(a) by {
        if (a as int) < n {
            assert(p(p(a)) == a);
            assert(k.contains(p(a)) <==> k0.contains(a));
            assert(k.contains(p(a)) <==> k1.contains(a));
        } else {
            if k0.contains(a) {
                let i = choose|i: int| 0 <= i < k0.len() && k0[i] == a;
            }
            if k1.contains(a) {
                let i = choose|i: int| 0 <= i < k1.len() && k1[i] == a;
            }
        }
    }
    lemma_increasing_unique(k0, k1);
}

/// Following the carried guesses from the renaming of a set costs what
/// following the guesses from the set costs.
pub proof fn lemma_tree_carried(sp: Seq<Seq<u8>>, slots: nat, p: spec_fn(u16) -> u16, g: Map<Seq<u16>, u16>, k0: Seq<u16>, k: Seq<u16>)
    requires
        symmetry(sp, p),
        paired(p, sp.len(), k0, k),
        guesses_in(g, sp.len()),
        strategy_tree(sp, slots, g, k0) is Ok,
    ensures
        strategy_tree(sp, slots, carried(g, p, sp.len()), k) is Ok,
        strategy_tree(sp, slots, carried(g, p, sp.len()), k)->Ok_0.total == strategy_tree(sp, slots, g, k0)->Ok_0.total,
        strategy_tree(sp, slots, carried(g, p, sp.len()), k)->Ok_0.worst == strategy_tree(sp, slots, g, k0)->Ok_0.worst,
        tree_guess(carried(g, p, sp.len()), k) == Some(p(tree_guess(g, k0)->0)),
    decreases k0.len(), 1nat, 0nat,
{
    let n = sp.len();
    let g2 = carried(g, p, n);
    lemma_paired_len(sp, p, k0, k);
    let x0 = tree_guess(g, k0)->0;
    if k0.len() == 1 {
        assert(k.contains(k[0]));
        assert((k[0] as int) < n);
        assert(k0.contains(p(k[0])));
        assert(p(k[0]) == k0[0]);
        assert(p(p(k[0])) == k[0]);
        assert(tree_guess(g2, k) == Some(p(x0)));
        assert((x0 as int) < n) by {
            assert(k0[0] == x0);
        }
    } else {
        assert(g.contains_key(k0));
        lemma_preimage(sp, p, k0, k);
        assert(g2.contains_key(k));
        assert(tree_guess(g2, k) == Some(p(x0)));
    }
    assert((x0 as int) < n);
    lemma_children_paired(sp, slots, p, k0, k, x0);
    let c0 = children_spec(sp, slots, k0, x0 as int);
    let c1 = children_spec(sp, slots, k, p(x0) as int);
    lemma_forest_carried(sp, slots, p, g, c0, c1, k0.len());
}

/// The same for the buckets of a state, position by position.
pub proof fn lemma_forest_carried(
    sp: Seq<Seq<u8>>,
    slots: nat,
    p: spec_fn(u16) -> u16,
    g: Map<Seq<u16>, u16>,
    c0: Seq<Seq<u16>>,
    c1: Seq<Seq<u16>>,
    bound: nat,
)
    requires
        symmetry(sp, p),
        c0.len() == c1.len(),
        forall|i: int| 0 <= i < c0.len() ==> paired(p, sp.len(), #[trigger] c0[i], c1[i]),
        guesses_in(g, sp.len()),
        strategy_forest(sp, slots, g, c0, bound) is Ok,
    ensures
        strategy_forest(sp, slots, carried(g, p, sp.len()), c1, bound) is Ok,
        strategy_forest(sp, slots, carried(g, p, sp.len()), c1, bound)->Ok_0.total == strategy_forest(sp, slots, g, c0, bound)->Ok_0.total,
        strategy_forest(sp, slots, carried(g, p, sp.len()), c1, bound)->Ok_0.worst == strategy_forest(sp, slots, g, c0, bound)->Ok_0.worst,
    decreases bound, 0nat, c0.len(),
{
    if c0.len() > 0 {
        let a0 = c0.drop_last();
        let a1 = c1.drop_last();
        assert forall|i: int| 0 <= i < a0.len() implies paired(p, sp.len(), #[trigger] a0[i], a1[i]) by {
            assert(a0[i] == c0[i] && a1[i] == c1[i]);
        }
        lemma_forest_carried(sp, slots, p, g, a0, a1, bound);
        assert(paired(p, sp.len(), c0.last(), c1.last())) by {
            assert(c0.last() == c0[c0.len() - 1]);
        }
        lemma_paired_len(sp, p, c0.last(), c1.last());
        assert(c0.last().len() < bound);
        lemma_tree_carried(sp, slots, p, g, c0.last(), c1.last());
    }
}

/// On the whole space, a first guess is as good as its renaming: every
/// strategy starting with `x` is matched by one of the same cost starting
/// with `p(x)`, so a bound that holds after `p(x)` holds after `x`.
pub proof fn lemma_via_symmetric(sp: Seq<Seq<u8>>, slots: nat, p: spec_fn(u16) -> u16, x: u16, l: nat)
    requires
        symmetry(sp, p),
        2 <= sp.len() <= 65536,
        (x as int) < sp.len(),
        sound_via(sp, slots, all_ids(sp.len()), p(x), l),
    ensures
        sound_via(sp, slots, all_ids(sp.len()), x, l),
{
    let n = sp.len();
    let all = all_ids(n);
    assert(paired(p, n, all, all)) by {
        assert forall|b: u16| #[trigger] all.contains(b) <==> ((b as int) < n && all.contains(p(b))) by {
            if (b as int) < n {
                assert(all[b as int] == b);
                assert(all[p(b) as int] == p(b));
            } else if all.contains(b) {
                let i = choose|i: int| 0 <= i < all.len() && all[i] == b;
            }
        }
    }
    assert forall|g: Map<Seq<u16>, u16>|
        guesses_in(g, sp.len()) && tree_guess(g, all) == Some(x) && #[trigger] strategy_tree(sp, slots, g, all) is Ok
        implies strategy_tree(sp, slots, g, all)->Ok_0.total >= l by {
        let g2 = carried(g, p, n);
        lemma_tree_carried(sp, slots, p, g, all, all);
        assert(guesses_in(g2, n)) by {
            assert forall|k: Seq<u16>| #[trigger] g2.contains_key(k) implies (g2[k] as nat) < n by {
                assert(g.contains_key(preimage(p, n, k)));
            }
        }
        assert(tree_guess(g2, all) == Some(p(x)));
    }
}

/// A code of `m` slots over `b` colours.
pub open spec fn valid_code(code: Seq<u8>, b: nat, m: nat) -> bool {
    &&& code.len() == m
    &&& forall|i: int| 0 <= i < code.len() ==> (#[trigger] code[i] as nat) < b
}

/// The position of a code in the odometer order: its digits read in base `b`.
pub open spec fn code_index(code: Seq<u8>, b: nat) -> nat
    decreases code.len(),
{
    if code.len() == 0 {
        0
    } else {
        code_index(code.drop_last(), b) * b + code.last() as nat
    }
}

/// Every code of the rules stands in the odometer space, at `code_index`.
proof fn lemma_code_index(code: Seq<u8>, b: nat, m: nat)
    requires
        1 <= b <= 256,
        valid_code(code, b, m),
    ensures
        code_index(code, b) < power(b, m),
        odometer_code(code_index(code, b), b, m) == code,
    decreases m,
{
    if m == 0 {
        assert(odometer_code(0, b, 0) =~= code);
    } else {
        let rest = code.drop_last();
        lemma_code_index(rest, b, (m - 1) as nat);
        let q = code_index(rest, b);
        let r = code.last() as nat;
        let i = code_index(code, b);
        assert(r < b) by {
            assert(code.last() == code[code.len() - 1]);
        }
        assert(i == q * b + r);
        lemma_power_positive(b, (m - 1) as nat);
        let pw = power(b, (m - 1) as nat);
        assert(power(b, m) == b * pw);
        assert(i < power(b, m)) by (nonlinear_arith)
            requires
                i == q * b + r,
                q < pw,
                r < b,
                power(b, m) == b * pw,
        ;
        vstd::arithmetic::div_mod::lemma_fundamental_div_mod_converse(i as int, b as int, q as int, r as int);
        lemma_odometer_split(i, b, m);
        let o = odometer_code(i, b, m);
        assert(o.drop_last() == rest);
        assert(o.last() == code.last());
        assert(o =~= o.drop_last().push(o.last()));
        assert(code =~= rest.push(code.last()));
    }
}

/// The id renaming made by a renaming of codes.
pub open spec fn id_map(sigma: spec_fn(Seq<u8>) -> Seq<u8>, b: nat, m: nat) -> spec_fn(u16) -> u16 {
    |a: u16| code_index(sigma(odometer_code(a as nat, b, m)), b) as u16
}

/// `sigma` is its own inverse on the codes of the rules, keeps them codes
/// of the rules, and keeps every feedback.
pub open spec fn code_symmetry(sigma: spec_fn(Seq<u8>) -> Seq<u8>, b: nat, m: nat) -> bool {
    &&& forall|x: Seq<u8>| valid_code(x, b, m) ==> valid_code(#[trigger] sigma(x), b, m)
    &&& forall|x: Seq<u8>| valid_code(x, b, m) ==> #[trigger] sigma(sigma(x)) == x
    &&& forall|x: Seq<u8>, y: Seq<u8>|
        valid_code(x, b, m) && valid_code(y, b, m) ==> #[trigger] feedback(sigma(x), sigma(y)) == feedback(x, y)
}

/// The codes of the odometer space are the codes of the rules.
proof fn lemma_odometer_valid(i: nat, b: nat, m: nat)
    requires
        1 <= b <= 256,
    ensures
        valid_code(odometer_code(i, b, m), b, m),
{
    let code = odometer_code(i, b, m);
    assert forall|k: int| 0 <= k < code.len() implies (#[trigger] code[k] as nat) < b by {
        let e = (m - 1 - k) as nat;
        lemma_power_positive(b, e);
        vstd::arithmetic::div_mod::lemma_mod_bound((i / power(b, e)) as int, b as int);
    }
}

/// A symmetry of codes renames the ids of the odometer space symmetrically.
pub proof fn lemma_id_symmetry(sigma: spec_fn(Seq<u8>) -> Seq<u8>, b: nat, m: nat)
    requires
        1 <= b <= 256,
        power(b, m) <= 65536,
        code_symmetry(sigma, b, m),
    ensures
        symmetry(odometer_space(b, m), id_map(sigma, b, m)),
{
    let sp = odometer_space(b, m);
    let n = sp.len();
    let p = id_map(sigma, b, m);
    assert forall|a: u16| (a as int) < n implies (#[trigger] p(a) as int) < n && odometer_code(p(a) as nat, b, m) == sigma(sp[a as int]) by {
        lemma_odometer_valid(a as nat, b, m);
        let y = sigma(odometer_code(a as nat, b, m));
        lemma_code_index(y, b, m);
    }
    assert forall|a: u16| (a as int) < n implies #[trigger] p(p(a)) == a by {
        lemma_odometer_valid(a as nat, b, m);
        let x = odometer_code(a as nat, b, m);
        assert(odometer_code(p(a) as nat, b, m) == sigma(x));
        assert(sigma(sigma(x)) == x);
        lemma_code_index(x, b, m);
        lemma_odometer_injective(code_index(x, b), a as nat, b, m);
    }
    assert forall|a: u16, c: u16| (a as int) < n && (c as int) < n implies #[trigger] fb_code(sp, p(a) as int, p(c) as int)
        == fb_code(sp, a as int, c as int) by {
        lemma_odometer_valid(a as nat, b, m);
        lemma_odometer_valid(c as nat, b, m);
        assert(sp[p(a) as int] == sigma(sp[a as int]));
        assert(sp[p(c) as int] == sigma(sp[c as int]));
    }
}

/// Colour `c` and colour `c + 1` exchanged.
pub open spec fn swap_colour(v: u8, c: nat) -> u8 {
    if v as nat == c {
        (c + 1) as u8
    } else if v as nat == c + 1 {
        c as u8
    } else {
        v
    }
}

/// The code with colours `c` and `c + 1` exchanged.
pub open spec fn colour_swap(c: nat) -> spec_fn(Seq<u8>) -> Seq<u8> {
    |x: Seq<u8>| x.map_values(|v: u8| swap_colour(v, c))
}

/// The code with the gems in slots `i` and `i + 1` exchanged.
pub open spec fn slot_swap(i: int) -> spec_fn(Seq<u8>) -> Seq<u8> {
    |x: Seq<u8>| x.update(i, x[i + 1]).update(i + 1, x[i])
}

proof fn lemma_colour_exact(g: Seq<u8>, a: Seq<u8>, c: nat)
    requires
        g.len() == a.len(),
        c + 1 < 256,
    ensures
        exact_matches(colour_swap(c)(g), colour_swap(c)(a)) == exact_matches(g, a),
    decreases g.len(),
{
    if g.len() > 0 {
        lemma_colour_exact(g.drop_last(), a.drop_last(), c);
        assert(colour_swap(c)(g).drop_last() =~= colour_swap(c)(g.drop_last()));
        assert(colour_swap(c)(a).drop_last() =~= colour_swap(c)(a.drop_last()));
    }
}

proof fn lemma_colour_count(x: Seq<u8>, c: nat, col: int)
    requires
        c + 1 < 256,
        0 <= col < 256,
    ensures
        count_color(colour_swap(c)(x), col) == count_color(x, swap_colour(col as u8, c) as int),
    decreases x.len(),
{
    if x.len() > 0 {
        lemma_colour_count(x.drop_last(), c, col);
        assert(colour_swap(c)(x).drop_last() =~= colour_swap(c)(x.drop_last()));
    }
}

proof fn lemma_colour_overlap(g: Seq<u8>, a: Seq<u8>, c: nat, k: nat)
    requires
        c + 1 < 256,
        k <= 256,
        k <= c || k >= c + 2,
    ensures
        overlap_upto(colour_swap(c)(g), colour_swap(c)(a), k) == overlap_upto(g, a, k),
    decreases k,
{
    let gs = colour_swap(c)(g);
    let as_ = colour_swap(c)(a);
    if k > 0 {
        if k == c + 2 {
            lemma_colour_overlap(g, a, c, c);
            lemma_colour_count(g, c, c as int);
            lemma_colour_count(a, c, c as int);
            lemma_colour_count(g, c, (c + 1) as int);
            lemma_colour_count(a, c, (c + 1) as int);
            assert(overlap_upto(gs, as_, c + 1) == overlap_upto(gs, as_, c) + min_nat(count_color(gs, c as int), count_color(as_, c as int)));
            assert(overlap_upto(g, a, c + 1) == overlap_upto(g, a, c) + min_nat(count_color(g, c as int), count_color(a, c as int)));
            assert(overlap_upto(gs, as_, k) == overlap_upto(gs, as_, c) + min_nat(count_color(gs, c as int), count_color(as_, c as int))
                + min_nat(count_color(gs, (c + 1) as int), count_color(as_, (c + 1) as int)));
            assert(overlap_upto(g, a, k) == overlap_upto(g, a, c) + min_nat(count_color(g, c as int), count_color(a, c as int))
                + min_nat(count_color(g, (c + 1) as int), count_color(a, (c + 1) as int)));
        } else {
            lemma_colour_overlap(g, a, c, (k - 1) as nat);
            lemma_colour_count(g, c, k - 1);
            lemma_colour_count(a, c, k - 1);
        }
    }
}

/// Exchanging two colours is a symmetry of the codes of the rules.
pub proof fn lemma_colour_symmetry(c: nat, b: nat, m: nat)
    requires
        c + 1 < b <= 256,
    ensures
        code_symmetry(colour_swap(c), b, m),
{
    let sg = colour_swap(c);
    assert forall|x: Seq<u8>| valid_code(x, b, m) implies valid_code(#[trigger] sg(x), b, m) by {
        assert forall|i: int| 0 <= i < sg(x).len() implies (#[trigger] sg(x)[i] as nat) < b by {
            assert(sg(x)[i] == swap_colour(x[i], c));
        }
    }
    assert forall|x: Seq<u8>| valid_code(x, b, m) implies #[trigger] sg(sg(x)) == x by {
        assert(sg(sg(x)) =~= x);
    }
    assert forall|x: Seq<u8>, y: Seq<u8>| valid_code(x, b, m) && valid_code(y, b, m) implies #[trigger] feedback(sg(x), sg(y))
        == feedback(x, y) by {
        lemma_colour_exact(x, y, c);
        lemma_colour_overlap(x, y, c, 256);
    }
}

proof fn lemma_slot_exact(g: Seq<u8>, a: Seq<u8>, i: int)
    requires
        g.len() == a.len(),
        0 <= i,
        i + 1 < g.len(),
    ensures
        exact_matches(slot_swap(i)(g), slot_swap(i)(a)) == exact_matches(g, a),
    decreases g.len(),
{
    let gs = slot_swap(i)(g);
    let as_ = slot_swap(i)(a);
    if i + 1 < g.len() - 1 {
        lemma_slot_exact(g.drop_last(), a.drop_last(), i);
        assert(gs.drop_last() =~= slot_swap(i)(g.drop_last()));
        assert(as_.drop_last() =~= slot_swap(i)(a.drop_last()));
    } else {
        assert(gs.drop_last().drop_last() =~= g.drop_last().drop_last());
        assert(as_.drop_last().drop_last() =~= a.drop_last().drop_last());
        assert(exact_matches(gs, as_) == exact_matches(gs.drop_last(), as_.drop_last()) + (if gs.last() == as_.last() {
            1nat
        } else {
            0nat
        }));
        assert(exact_matches(g, a) == exact_matches(g.drop_last(), a.drop_last()) + (if g.last() == a.last() {
            1nat
        } else {
            0nat
        }));
    }
}

proof fn lemma_slot_count(x: Seq<u8>, i: int, col: int)
    requires
        0 <= i,
        i + 1 < x.len(),
    ensures
        count_color(slot_swap(i)(x), col) == count_color(x, col),
    decreases x.len(),
{
    let xs = slot_swap(i)(x);
    if i + 1 < x.len() - 1 {
        lemma_slot_count(x.drop_last(), i, col);
        assert(xs.drop_last() =~= slot_swap(i)(x.drop_last()));
    } else {
        assert(xs.drop_last().drop_last() =~= x.drop_last().drop_last());
        assert(count_color(xs.drop_last(), col) == count_color(xs.drop_last().drop_last(), col) + (if xs.drop_last().last() == col {
            1nat
        } else {
            0nat
        }));
        assert(count_color(x.drop_last(), col) == count_color(x.drop_last().drop_last(), col) + (if x.drop_last().last() == col {
            1nat
        } else {
            0nat
        }));
    }
}

proof fn lemma_slot_overlap(g: Seq<u8>, a: Seq<u8>, i: int, k: nat)
    requires
        g.len() == a.len(),
        0 <= i,
        i + 1 < g.len(),
    ensures
        overlap_upto(slot_swap(i)(g), slot_swap(i)(a), k) == overlap_upto(g, a, k),
    decreases k,
{
    if k > 0 {
        lemma_slot_overlap(g, a, i, (k - 1) as nat);
        lemma_slot_count(g, i, k - 1);
        lemma_slot_count(a, i, k - 1);
    }
}

/// Exchanging the gems of two neighbouring slots is a symmetry of the codes
/// of the rules.
pub proof fn lemma_slot_symmetry(i: int, b: nat, m: nat)
    requires
        0 <= i,
        i + 1 < m,
    ensures
        code_symmetry(slot_swap(i), b, m),
{
    let sg = slot_swap(i);
    assert forall|x: Seq<u8>| valid_code(x, b, m) implies valid_code(#[trigger] sg(x), b, m) by {
        assert forall|j: int| 0 <= j < sg(x).len() implies (#[trigger] sg(x)[j] as nat) < b by {
            if j == i {
                assert(sg(x)[j] == x[i + 1]);
            } else if j == i + 1 {
                assert(sg(x)[j] == x[i]);
            } else {
                assert(sg(x)[j] == x[j]);
            }
        }
    }
    assert forall|x: Seq<u8>| valid_code(x, b, m) implies #[trigger] sg(sg(x)) == x by {
        assert(sg(sg(x)) =~= x);
    }
    assert forall|x: Seq<u8>, y: Seq<u8>| valid_code(x, b, m) && valid_code(y, b, m) implies #[trigger] feedback(sg(x), sg(y))
        == feedback(x, y) by {
        lemma_slot_exact(x, y, i);
        lemma_slot_overlap(x, y, i, 256);
    }
}

/// Two first guesses on the whole space admit the same lower bounds.
pub open spec fn equally_good(sp: Seq<Seq<u8>>, slots: nat, x: u16, y: u16) -> bool {
    forall|l: nat| #[trigger] sound_via(sp, slots, all_ids(sp.len()), x, l) == sound_via(sp, slots, all_ids(sp.len()), y, l)
}

/// The id of a code of the rules.
pub open spec fn id_of(code: Seq<u8>, b: nat) -> u16 {
    code_index(code, b) as u16
}

/// The codes `x` and `y` are equally good first guesses.
pub open spec fn linked(x: Seq<u8>, y: Seq<u8>, b: nat, m: nat) -> bool {
    equally_good(odometer_space(b, m), m, id_of(x, b), id_of(y, b))
}

/// The small rules the optimizer plays.
pub open spec fn small_rules(b: nat, m: nat) -> bool {
    &&& 2 <= b <= 6
    &&& 1 <= m <= 4
}

/// A single colour gives a single code.
pub proof fn lemma_power_one(m: nat)
    ensures
        power(1, m) == 1,
    decreases m,
{
    if m > 0 {
        lemma_power_one((m - 1) as nat);
    }
}

proof fn lemma_power_small(b: nat, m: nat)
    requires
        small_rules(b, m),
    ensures
        2 <= power(b, m) <= 1296,
{
    assert(power(b, 0) == 1);
    assert(power(b, 1) == b * power(b, 0));
    assert(power(b, 2) == b * power(b, 1));
    assert(power(b, 3) == b * power(b, 2));
    assert(power(b, 4) == b * power(b, 3));
    assert(2 <= b * b <= 36) by (nonlinear_arith)
        requires
            2 <= b <= 6,
    ;
    assert(2 <= b * (b * b) <= 216) by (nonlinear_arith)
        requires
            2 <= b <= 6,
    ;
    assert(2 <= b * (b * (b * b)) <= 1296) by (nonlinear_arith)
        requires
            2 <= b <= 6,
    ;
}

proof fn lemma_linked_trans(x: Seq<u8>, y: Seq<u8>, z: Seq<u8>, b: nat, m: nat)
    requires
        linked(x, y, b, m),
        linked(y, z, b, m),
    ensures
        linked(x, z, b, m),
{
    let sp = odometer_space(b, m);
    assert forall|l: nat| #[trigger] sound_via(sp, m, all_ids(sp.len()), id_of(x, b), l) == sound_via(
        sp,
        m,
        all_ids(sp.len()),
        id_of(z, b),
        l,
    ) by {
        assert(sound_via(sp, m, all_ids(sp.len()), id_of(y, b), l) == sound_via(sp, m, all_ids(sp.len()), id_of(z, b), l));
    }
}

proof fn lemma_linked_sym(x: Seq<u8>, y: Seq<u8>, b: nat, m: nat)
    requires
        linked(x, y, b, m),
    ensures
        linked(y, x, b, m),
{
    let sp = odometer_space(b, m);
    assert forall|l: nat| #[trigger] sound_via(sp, m, all_ids(sp.len()), id_of(y, b), l) == sound_via(
        sp,
        m,
        all_ids(sp.len()),
        id_of(x, b),
        l,
    ) by {
        assert(sound_via(sp, m, all_ids(sp.len()), id_of(x, b), l) == sound_via(sp, m, all_ids(sp.len()), id_of(y, b), l));
    }
}

/// One symmetry of the codes links a code to its image.
proof fn lemma_linked_step(sigma: spec_fn(Seq<u8>) -> Seq<u8>, x: Seq<u8>, b: nat, m: nat)
    requires
        small_rules(b, m),
        code_symmetry(sigma, b, m),
        valid_code(x, b, m),
    ensures
        linked(x, sigma(x), b, m),
{
    lemma_power_small(b, m);
    let sp = odometer_space(b, m);
    let p = id_map(sigma, b, m);
    lemma_id_symmetry(sigma, b, m);
    lemma_code_index(x, b, m);
    lemma_code_index(sigma(x), b, m);
    let a = id_of(x, b);
    assert(odometer_code(a as nat, b, m) == x);
    assert(p(a) == id_of(sigma(x), b));
    assert(p(p(a)) == a);
    assert forall|l: nat| #[trigger] sound_via(sp, m, all_ids(sp.len()), a, l) == sound_via(
        sp,
        m,
        all_ids(sp.len()),
        p(a),
        l,
    ) by {
        if sound_via(sp, m, all_ids(sp.len()), p(a), l) {
            lemma_via_symmetric(sp, m, p, a, l);
        }
        if sound_via(sp, m, all_ids(sp.len()), a, l) {
            lemma_via_symmetric(sp, m, p, p(a), l);
        }
    }
}

/// Moving the gem of slot `i` to slot `j` links the codes.
proof fn lemma_move_slot(x: Seq<u8>, i: int, j: int, b: nat, m: nat)
    requires
        small_rules(b, m),
        valid_code(x, b, m),
        0 <= i <= j < m,
    ensures
        valid_code(x.remove(i).insert(j, x[i]), b, m),
        linked(x, x.remove(i).insert(j, x[i]), b, m),
    decreases j - i,
{
    let target = x.remove(i).insert(j, x[i]);
    if i == j {
        assert(target =~= x);
        assert forall|l: nat| #[trigger] sound_via(odometer_space(b, m), m, all_ids(odometer_space(b, m).len()), id_of(x, b), l)
            == sound_via(odometer_space(b, m), m, all_ids(odometer_space(b, m).len()), id_of(target, b), l) by {}
    } else {
        lemma_slot_symmetry(i, b, m);
        let x1 = slot_swap(i)(x);
        lemma_linked_step(slot_swap(i), x, b, m);
        assert(valid_code(x1, b, m));
        lemma_move_slot(x1, i + 1, j, b, m);
        assert(x1.remove(i + 1).insert(j, x1[i + 1]) =~= target);
        lemma_linked_trans(x, x1, target, b, m);
    }
}

proof fn lemma_linked_refl(x: Seq<u8>, b: nat, m: nat)
    ensures
        linked(x, x, b, m),
{
}

/// Codes that agree from slot `q` on and hold the same gems before it are
/// linked by exchanges of neighbouring slots.
proof fn lemma_slots_linked(x: Seq<u8>, y: Seq<u8>, q: int, b: nat, m: nat)
    requires
        small_rules(b, m),
        valid_code(x, b, m),
        valid_code(y, b, m),
        0 <= q <= m,
        x.subrange(q, m as int) == y.subrange(q, m as int),
        x.take(q).to_multiset() == y.take(q).to_multiset(),
    ensures
        linked(x, y, b, m),
    decreases q,
{
    broadcast use vstd::seq_lib::group_to_multiset_ensures;
    broadcast use vstd::multiset::group_multiset_axioms;

    if q == 0 {
        assert(x =~= x.subrange(0, m as int));
        assert(y =~= y.subrange(0, m as int));
        lemma_linked_refl(x, b, m);
    } else {
        let v = y[q - 1];
        assert(y.take(q) =~= y.take(q - 1).push(v));
        assert(y.take(q).to_multiset().count(v) > 0);
        assert(x.take(q).contains(v));
        let i = choose|i: int| 0 <= i < q && x.take(q)[i] == v;
        assert(x[i] == v);
        lemma_move_slot(x, i, q - 1, b, m);
        let x1 = x.remove(i).insert(q - 1, v);
        assert(x1.take(q - 1) =~= x.take(q).remove(i));
        assert(x.take(q)[i] == v);
        assert(x1.take(q - 1).to_multiset() =~= y.take(q - 1).to_multiset());
        assert(x1.subrange(q - 1, m as int) =~= y.subrange(q - 1, m as int)) by {
            assert forall|k: int| 0 <= k < m - (q - 1) implies #[trigger] x1.subrange(q - 1, m as int)[k] == y.subrange(q - 1, m as int)[k] by {
                if k > 0 {
                    assert(x.subrange(q, m as int)[k - 1] == y.subrange(q, m as int)[k - 1]);
                    assert(x.remove(i)[q - 2 + k] == x[q - 1 + k]);
                    assert(x1[q - 1 + k] == x.remove(i)[q - 2 + k]);
                    assert(y.subrange(q, m as int)[k - 1] == y[q - 1 + k]);
                    assert(x.subrange(q, m as int)[k - 1] == x[q - 1 + k]);
                } else {
                    assert(x1[q - 1] == v);
                }
                assert(x1.len() == m);
                assert(x1.subrange(q - 1, m as int)[k] == x1[q - 1 + k]);
                assert(y.subrange(q - 1, m as int)[k] == y[q - 1 + k]);
            }
        }
        lemma_slots_linked(x1, y, q - 1, b, m);
        lemma_linked_trans(x, x1, y, b, m);
    }
}

/// The number of gems of each colour.
pub open spec fn colour_counts(x: Seq<u8>, b: nat) -> Seq<u16> {
    Seq::new(b, |col: int| count_color(x, col) as u16)
}

proof fn lemma_swapped_counts(x: Seq<u8>, i: int, b: nat)
    requires
        0 <= i,
        i + 1 < b <= 256,
    ensures
        forall|k: int| 0 <= k < b ==> #[trigger] colour_counts(colour_swap(i as nat)(x), b)[k] == (if k == i {
            colour_counts(x, b)[i + 1]
        } else if k == i + 1 {
            colour_counts(x, b)[i]
        } else {
            colour_counts(x, b)[k]
        }),
{
    assert forall|k: int| 0 <= k < b implies #[trigger] colour_counts(colour_swap(i as nat)(x), b)[k] == (if k == i {
        colour_counts(x, b)[i + 1]
    } else if k == i + 1 {
        colour_counts(x, b)[i]
    } else {
        colour_counts(x, b)[k]
    }) by {
        lemma_colour_count(x, i as nat, k);
    }
}

/// Moving the colour of rank `i` to rank `j` by exchanging neighbouring
/// colours links the code to one whose colour counts are moved the same way.
#[verifier::spinoff_prover]
#[verifier::rlimit(40)]
proof fn lemma_move_colour(x: Seq<u8>, i: int, j: int, b: nat, m: nat) -> (y: Seq<u8>)
    requires
        small_rules(b, m),
        valid_code(x, b, m),
        0 <= i <= j < b,
    ensures
        valid_code(y, b, m),
        linked(x, y, b, m),
        colour_counts(y, b) == colour_counts(x, b).remove(i).insert(j, colour_counts(x, b)[i]),
    decreases j - i,
{
    let cv = colour_counts(x, b);
    if i == j {
        assert(cv.remove(i).insert(j, cv[i]) =~= cv);
        lemma_linked_refl(x, b, m);
        x
    } else {
        lemma_colour_symmetry(i as nat, b, m);
        let x1 = colour_swap(i as nat)(x);
        lemma_linked_step(colour_swap(i as nat), x, b, m);
        let cv1 = colour_counts(x1, b);
        lemma_swapped_counts(x, i, b);
        let y = lemma_move_colour(x1, i + 1, j, b, m);
        assert(cv1.remove(i + 1).insert(j, cv1[i + 1]) =~= cv.remove(i).insert(j, cv[i]));
        lemma_linked_trans(x, x1, y, b, m);
        y
    }
}

/// A code is linked, by exchanges of neighbouring colours, to a code whose
/// colour counts are any rearrangement of its own.
proof fn lemma_colours_linked(x: Seq<u8>, t: Seq<u16>, q: int, b: nat, m: nat) -> (y: Seq<u8>)
    requires
        small_rules(b, m),
        valid_code(x, b, m),
        t.len() == b,
        0 <= q <= b,
        colour_counts(x, b).subrange(q, b as int) == t.subrange(q, b as int),
        colour_counts(x, b).take(q).to_multiset() == t.take(q).to_multiset(),
    ensures
        valid_code(y, b, m),
        linked(x, y, b, m),
        colour_counts(y, b) == t,
    decreases q,
{
    broadcast use vstd::seq_lib::group_to_multiset_ensures;
    broadcast use vstd::multiset::group_multiset_axioms;

    let cv = colour_counts(x, b);
    if q == 0 {
        assert(cv =~= cv.subrange(0, b as int));
        assert(t =~= t.subrange(0, b as int));
        lemma_linked_refl(x, b, m);
        x
    } else {
        let v = t[q - 1];
        assert(t.take(q) =~= t.take(q - 1).push(v));
        assert(t.take(q).to_multiset().count(v) > 0);
        assert(cv.take(q).contains(v));
        let i = choose|i: int| 0 <= i < q && cv.take(q)[i] == v;
        assert(cv[i] == v);
        let x1 = lemma_move_colour(x, i, q - 1, b, m);
        let cv1 = colour_counts(x1, b);
        assert(cv1 == cv.remove(i).insert(q - 1, v));
        assert(cv1.take(q - 1) =~= cv.take(q).remove(i));
        assert(cv.take(q)[i] == v);
        assert(cv1.take(q - 1).to_multiset() =~= t.take(q - 1).to_multiset());
        assert(cv1.subrange(q - 1, b as int) =~= t.subrange(q - 1, b as int)) by {
            assert forall|k: int| 0 <= k < b - (q - 1) implies #[trigger] cv1.subrange(q - 1, b as int)[k] == t.subrange(q - 1, b as int)[k] by {
                if k > 0 {
                    assert(cv.subrange(q, b as int)[k - 1] == t.subrange(q, b as int)[k - 1]);
                }
            }
        }
        let y = lemma_colours_linked(x1, t, q - 1, b, m);
        lemma_linked_trans(x, x1, y, b, m);
        y
    }
}

proof fn lemma_count_multiset(s: Seq<u8>, v: u8)
    ensures
        count_color(s, v as int) == s.to_multiset().count(v),
    decreases s.len(),
{
    broadcast use vstd::seq_lib::group_to_multiset_ensures;
    broadcast use vstd::multiset::group_multiset_axioms;

    if s.len() > 0 {
        lemma_count_multiset(s.drop_last(), v);
        assert(s =~= s.drop_last().push(s.last()));
    }
}

proof fn lemma_count_bound(s: Seq<u8>, col: int)
    ensures
        count_color(s, col) <= s.len(),
    decreases s.len(),
{
    if s.len() > 0 {
        lemma_count_bound(s.drop_last(), col);
    }
}

proof fn lemma_leq_total()
    ensures
        vstd::relations::total_ordering(|a: u16, c: u16| id_le(a, c)),
{
}

/// Codes with the same sorted colour counts are equally good first guesses.
proof fn lemma_signature_linked(x: Seq<u8>, r: Seq<u8>, b: nat, m: nat)
    requires
        small_rules(b, m),
        valid_code(x, b, m),
        valid_code(r, b, m),
        count_signature(x, b) == count_signature(r, b),
    ensures
        linked(x, r, b, m),
{
    broadcast use vstd::seq_lib::group_to_multiset_ensures;
    broadcast use vstd::multiset::group_multiset_axioms;

    let leq = |a: u16, c: u16| id_le(a, c);
    lemma_leq_total();
    let t = count_signature(x, b);
    assert(colour_counts(x, b).sort_by(leq) == t);
    assert(colour_counts(r, b).sort_by(leq) == t);
    colour_counts(x, b).lemma_sort_by_ensures(leq);
    colour_counts(r, b).lemma_sort_by_ensures(leq);
    assert(t.len() == b) by {
        vstd::seq_lib::to_multiset_len(t);
        vstd::seq_lib::to_multiset_len(colour_counts(x, b));
    }
    assert(colour_counts(x, b).take(b as int) =~= colour_counts(x, b));
    assert(colour_counts(r, b).take(b as int) =~= colour_counts(r, b));
    assert(t.take(b as int) =~= t);
    assert(colour_counts(x, b).subrange(b as int, b as int) =~= t.subrange(b as int, b as int));
    assert(colour_counts(r, b).subrange(b as int, b as int) =~= t.subrange(b as int, b as int));
    let y1 = lemma_colours_linked(x, t, b as int, b, m);
    let y2 = lemma_colours_linked(r, t, b as int, b, m);
    assert(y1.to_multiset() =~= y2.to_multiset()) by {
        assert forall|v: u8| #[trigger] y1.to_multiset().count(v) == y2.to_multiset().count(v) by {
            lemma_count_multiset(y1, v);
            lemma_count_multiset(y2, v);
            if (v as nat) < b {
                assert(colour_counts(y1, b)[v as int] == colour_counts(y2, b)[v as int]);
                lemma_count_bound(y1, v as int);
                lemma_count_bound(y2, v as int);
            } else {
                if y1.contains(v) {
                    let i = choose|i: int| 0 <= i < y1.len() && y1[i] == v;
                }
                if y2.contains(v) {
                    let i = choose|i: int| 0 <= i < y2.len() && y2[i] == v;
                }
            }
        }
    }
    assert(y1.take(m as int) =~= y1);
    assert(y2.take(m as int) =~= y2);
    assert(y1.subrange(m as int, m as int) =~= y2.subrange(m as int, m as int));
    lemma_slots_linked(y1, y2, m as int, b, m);
    lemma_linked_trans(x, y1, y2, b, m);
    lemma_linked_sym(r, y2, b, m);
    lemma_linked_trans(x, y2, r, b, m);
}

/// Some code no later than `x` with its signature is the first of its class.
proof fn lemma_class_first(sp: Seq<Seq<u8>>, colors: nat, x: int) -> (r: int)
    requires
        0 <= x < sp.len(),
    ensures
        0 <= r <= x,
        first_of_class(sp, colors, r),
        count_signature(sp[r], colors) == count_signature(sp[x], colors),
    decreases x,
{
    if first_of_class(sp, colors, x) {
        x
    } else {
        let j = choose|j: int| 0 <= j < x && count_signature(#[trigger] sp[j], colors) == count_signature(sp[x], colors);
        lemma_class_first(sp, colors, j)
    }
}

/// A bound that holds after each guess tried on the whole space, one per
/// signature, holds after every guess there.
pub proof fn lemma_root_guesses_cover(b: nat, m: nat, l: nat)
    requires
        small_rules(b, m),
        forall|i: int| 0 <= i < root_guess_spec(odometer_space(b, m), b).len() ==> #[trigger] sound_via(
            odometer_space(b, m),
            m,
            all_ids(odometer_space(b, m).len()),
            root_guess_spec(odometer_space(b, m), b)[i],
            l,
        ),
    ensures
        forall|x: u16| (x as int) < odometer_space(b, m).len() ==> #[trigger] sound_via(
            odometer_space(b, m),
            m,
            all_ids(odometer_space(b, m).len()),
            x,
            l,
        ),
{
    let sp = odometer_space(b, m);
    let n = sp.len();
    lemma_power_small(b, m);
    let rg = root_guess_spec(sp, b);
    assert forall|x: u16| (x as int) < n implies #[trigger] sound_via(sp, m, all_ids(n), x, l) by {
        let r = lemma_class_first(sp, b, x as int);
        let ids = Seq::new(n, |i: int| i as u16);
        let pred = |i: u16| first_of_class(sp, b, i as int);
        assert(rg == ids.filter(pred));
        assert(ids[r] == r as u16);
        lemma_filter_has(ids, pred, r as u16);
        assert(rg.contains(r as u16));
        let k = choose|k: int| 0 <= k < rg.len() && rg[k] == r as u16;
        assert(sound_via(sp, m, all_ids(n), r as u16, l));
        lemma_odometer_valid(x as nat, b, m);
        lemma_odometer_valid(r as nat, b, m);
        lemma_signature_linked(sp[x as int], sp[r], b, m);
        lemma_code_index(sp[x as int], b, m);
        lemma_code_index(sp[r], b, m);
        lemma_odometer_injective(code_index(sp[x as int], b), x as nat, b, m);
        lemma_odometer_injective(code_index(sp[r], b), r as nat, b, m);
        assert(id_of(sp[x as int], b) == x);
        assert(id_of(sp[r], b) == r as u16);
    }
}

/// The buckets of a state in id order are in id order.
pub proof fn lemma_children_increasing(sp: Seq<Seq<u8>>, slots: nat, c: Seq<u16>, g: int)
    requires
        increasing(c),
    ensures
        forall|x: Seq<u16>| #[trigger] children_spec(sp, slots, c, g).contains(x) ==> increasing(x),
{
    let all = Seq::new(25, |f: int| bucket(sp, slots, c, g, f));
    assert forall|x: Seq<u16>| #[trigger] children_spec(sp, slots, c, g).contains(x) implies increasing(x) by {
        lemma_filter_has(all, |b: Seq<u16>| b.len() > 0, x);
        let f = choose|f: int| 0 <= f < all.len() && all[f] == x;
        if f != slots * 5 {
            lemma_filter_increasing(c, |id: u16| fb_code(sp, g, id as int) == f);
        }
    }
}

proof fn lemma_rank_below(k: Seq<u16>, i: int)
    requires
        increasing(k),
        0 <= i < k.len(),
    ensures
        k[i] >= i,
    decreases i,
{
    if i > 0 {
        lemma_rank_below(k, i - 1);
        assert(k[i - 1] < k[i]);
    }
}

proof fn lemma_rank_above(k: Seq<u16>, n: nat, i: int)
    requires
        increasing(k),
        0 <= i < k.len(),
        forall|j: int| 0 <= j < k.len() ==> (#[trigger] k[j] as nat) < n,
    ensures
        k[i] + (k.len() - 1 - i) < n,
    decreases k.len() - i,
{
    if i < k.len() - 1 {
        lemma_rank_above(k, n, i + 1);
        assert(k[i] < k[i + 1]);
    }
}

/// `n` ids below `n` in increasing order are all of them, in id order.
pub proof fn lemma_full_increasing(k: Seq<u16>, n: nat)
    requires
        increasing(k),
        k.len() == n,
        forall|j: int| 0 <= j < k.len() ==> (#[trigger] k[j] as nat) < n,
    ensures
        k == all_ids(n),
{
    assert forall|i: int| 0 <= i < n implies #[trigger] k[i] == all_ids(n)[i] by {
        lemma_rank_below(k, i);
        lemma_rank_above(k, n, i);
    }
    assert(k =~= all_ids(n));
}

/// Ids that increase from each one to the next increase throughout.
pub proof fn lemma_adjacent_increasing(k: Seq<u16>)
    requires
        forall|i: int| 0 <= i < k.len() - 1 ==> #[trigger] k[i] < k[i + 1],
    ensures
        increasing(k),
    decreases k.len(),
{
    if k.len() > 0 {
        let k1 = k.drop_last();
        assert forall|i: int| 0 <= i < k1.len() - 1 implies #[trigger] k1[i] < k1[i + 1] by {
            assert(k[i] < k[i + 1]);
        }
        lemma_adjacent_increasing(k1);
        assert forall|i: int, j: int| 0 <= i < j < k.len() implies #[trigger] k[i] < #[trigger] k[j] by {
            if j < k.len() - 1 {
                assert(k1[i] < k1[j]);
            } else if i < j - 1 {
                assert(k1[i] < k1[j - 1]);
                assert(k[j - 1] < k[j]);
            } else {
                assert(k[i] < k[i + 1]);
            }
        }
    }
}

/// Following guesses from a state in id order visits only states in id order.
pub proof fn lemma_tree_rows_increasing(sp: Seq<Seq<u8>>, slots: nat, g: Map<Seq<u16>, u16>, c: Seq<u16>)
    requires
        increasing(c),
    ensures
        strategy_tree(sp, slots, g, c) matches Ok(t) ==> forall|k: Seq<u16>| #[trigger] t.rows.contains_key(k) ==> increasing(k),
    decreases c.len(), 1nat, 0nat,
{
    match tree_guess(g, c) {
        None => {},
        Some(x) => {
            let chs = children_spec(sp, slots, c, x as int);
            lemma_children_increasing(sp, slots, c, x as int);
            lemma_forest_rows_increasing(sp, slots, g, chs, c.len());
        },
    }
}

proof fn lemma_forest_rows_increasing(sp: Seq<Seq<u8>>, slots: nat, g: Map<Seq<u16>, u16>, chs: Seq<Seq<u16>>, bound: nat)
    requires
        forall|x: Seq<u16>| #[trigger] chs.contains(x) ==> increasing(x),
    ensures
        strategy_forest(sp, slots, g, chs, bound) matches Ok(fs) ==> forall|k: Seq<u16>| #[trigger] fs.rows.contains_key(k)
            ==> increasing(k),
    decreases bound, 0nat, chs.len(),
{
    if chs.len() > 0 {
        assert forall|x: Seq<u16>| #[trigger] chs.drop_last().contains(x) implies increasing(x) by {
            let q = choose|q: int| 0 <= q < chs.drop_last().len() && chs.drop_last()[q] == x;
            assert(chs.contains(chs[q]));
        }
        lemma_forest_rows_increasing(sp, slots, g, chs.drop_last(), bound);
        assert(chs.contains(chs.last()));
        if chs.last().len() < bound {
            lemma_tree_rows_increasing(sp, slots, g, chs.last());
        }
    }
}

} // verus!
