//! Strategies behind memoized upper bounds. A node is realized for a
//! candidate set when some choice of guesses, followed from that set, finds
//! every candidate with the node's first guess and within its total and its
//! largest number of submissions.
use vstd::prelude::*;

use crate::optimal::{
    bucket, children_spec, fb_code, lemma_children_subset, strategy_forest, strategy_tree, tree_guess, Entry,
    Node,
};
use vstd::seq_lib::lemma_fold_left_permutation;
use crate::bound::{distinct_codes, guesses_in, lemma_children_shaped, lemma_found_at_most_one, shaped};

verus! {

/// Every id of `k` occurs in `c`.
pub open spec fn within(k: Seq<u16>, c: Seq<u16>) -> bool {
    forall|i: int| 0 <= i < k.len() ==> c.contains(#[trigger] k[i])
}

/// `g1` and `g2` give the same guesses for every state of two or more
/// candidates drawn from `c` and no larger than it.
pub open spec fn agree_below(g1: Map<Seq<u16>, u16>, g2: Map<Seq<u16>, u16>, c: Seq<u16>) -> bool {
    forall|k: Seq<u16>| #[trigger] within(k, c) && 2 <= k.len() <= c.len() ==> g1.contains_key(k)
        == g2.contains_key(k) && (g1.contains_key(k) ==> g1[k] == g2[k])
}

/// Some choice of guesses, each naming a code of the space, followed from
/// `c`, starts with `node.guess` and
/// finds every candidate within `node.total` submissions in all and
/// `node.worst` for any one candidate; for a state of different codes, in
/// exactly that many.
pub open spec fn realizes(sp: Seq<Seq<u8>>, slots: nat, c: Seq<u16>, node: Node) -> bool {
    exists|g: Map<Seq<u16>, u16>| #[trigger]
        strategy_tree(sp, slots, g, c) matches Ok(t) && guesses_in(g, sp.len()) && t.guess == node.guess
            && t.total <= node.total && t.worst <= node.worst && (exact_state(sp, slots, c) ==> t.total == node.total
            && t.worst == node.worst)
}

/// A state of different codes of the space: there a realized strategy
/// takes exactly the node's total and worst case.
pub open spec fn exact_state(sp: Seq<Seq<u8>>, slots: nat, c: Seq<u16>) -> bool {
    shaped(sp, slots, c) && distinct_codes(sp, c)
}

/// Every memoized strategy is realized for its candidate set.
pub open spec fn memo_realized(sp: Seq<Seq<u8>>, slots: nat, m: Map<Seq<u16>, Entry>) -> bool {
    forall|k: Seq<u16>| #[trigger] m.contains_key(k) ==> (m[k].upper matches Some(nd) ==> realizes(sp, slots, k, nd))
}

/// A state drawn from a state drawn from `top` is drawn from `top`.
proof fn lemma_within_trans(k: Seq<u16>, c: Seq<u16>, top: Seq<u16>)
    requires
        within(k, c),
        within(c, top),
    ensures
        within(k, top),
{
    assert forall|i: int| 0 <= i < k.len() implies top.contains(#[trigger] k[i]) by {
        assert(c.contains(k[i]));
        let q = choose|q: int| 0 <= q < c.len() && c[q] == k[i];
        assert(top.contains(c[q]));
    }
}

/// The buckets of a state drawn from `top` are drawn from `top` too.
proof fn lemma_children_within(sp: Seq<Seq<u8>>, slots: nat, c: Seq<u16>, g: int, top: Seq<u16>)
    requires
        within(c, top),
    ensures
        forall|x: Seq<u16>| #[trigger] children_spec(sp, slots, c, g).contains(x) ==> within(x, top) && 1 <= x.len()
            <= c.len(),
{
    lemma_children_subset(sp, slots, c, g);
    assert forall|x: Seq<u16>| #[trigger] children_spec(sp, slots, c, g).contains(x) implies within(x, top) && 1
        <= x.len() <= c.len() by {
        assert(within(x, c));
        lemma_within_trans(x, c, top);
    }
}

/// Following guesses from a state reads them only for the states below it.
pub proof fn lemma_tree_local(
    sp: Seq<Seq<u8>>,
    slots: nat,
    g1: Map<Seq<u16>, u16>,
    g2: Map<Seq<u16>, u16>,
    c: Seq<u16>,
    top: Seq<u16>,
)
    requires
        agree_below(g1, g2, top),
        within(c, top),
        1 <= c.len() <= top.len(),
    ensures
        strategy_tree(sp, slots, g1, c) == strategy_tree(sp, slots, g2, c),
    decreases c.len(), 1nat, 0nat,
{
    if c.len() >= 2 {
        assert(within(c, top));
    }
    assert(tree_guess(g1, c) == tree_guess(g2, c));
    match tree_guess(g1, c) {
        None => {},
        Some(g) => {
            lemma_children_within(sp, slots, c, g as int, top);
            lemma_forest_local(sp, slots, g1, g2, children_spec(sp, slots, c, g as int), c.len(), top);
        },
    }
}

proof fn lemma_forest_local(
    sp: Seq<Seq<u8>>,
    slots: nat,
    g1: Map<Seq<u16>, u16>,
    g2: Map<Seq<u16>, u16>,
    chs: Seq<Seq<u16>>,
    bound: nat,
    top: Seq<u16>,
)
    requires
        agree_below(g1, g2, top),
        forall|x: Seq<u16>| #[trigger] chs.contains(x) ==> within(x, top) && 1 <= x.len() <= top.len(),
    ensures
        strategy_forest(sp, slots, g1, chs, bound) == strategy_forest(sp, slots, g2, chs, bound),
    decreases bound, 0nat, chs.len(),
{
    if chs.len() > 0 {
        assert forall|x: Seq<u16>| #[trigger] chs.drop_last().contains(x) implies within(x, top) && 1 <= x.len()
            <= top.len() by {
            let q = choose|q: int| 0 <= q < chs.drop_last().len() && chs.drop_last()[q] == x;
            assert(chs.contains(chs[q]));
        }
        lemma_forest_local(sp, slots, g1, g2, chs.drop_last(), bound, top);
        assert(chs.contains(chs.last()));
        if chs.last().len() < bound {
            lemma_tree_local(sp, slots, g1, g2, chs.last(), top);
        }
    }
}

/// The bucket of `c` under guess `g` that holds `id`.
pub open spec fn bucket_of(sp: Seq<Seq<u8>>, slots: nat, c: Seq<u16>, g: int, id: u16) -> Seq<u16> {
    bucket(sp, slots, c, g, fb_code(sp, g, id as int))
}

/// A bucket of `children_spec` is the bucket of each of its ids.
pub proof fn lemma_child_bucket(sp: Seq<Seq<u8>>, slots: nat, c: Seq<u16>, g: int, x: Seq<u16>, id: u16)
    requires
        children_spec(sp, slots, c, g).contains(x),
        x.contains(id),
    ensures
        bucket_of(sp, slots, c, g, id) == x,
{
    let all = Seq::new(25, |f: int| bucket(sp, slots, c, g, f));
    let pred = |b: Seq<u16>| b.len() > 0;
    all.lemma_filter_contains_rev(pred, x);
    let f = choose|f: int| 0 <= f < all.len() && all[f] == x;
    assert(x == bucket(sp, slots, c, g, f));
    if f == slots * 5 {
        assert(x.len() == 0);
    } else {
        let p2 = |v: u16| fb_code(sp, g, v as int) == f;
        assert(c.filter(p2).contains(id));
        let q = choose|q: int| 0 <= q < c.filter(p2).len() && c.filter(p2)[q] == id;
        c.lemma_filter_pred(p2, q);
        assert(fb_code(sp, g, id as int) == f);
    }
}

/// A filter keeps no two equal non-empty states when the source has none.
proof fn lemma_filter_nonempty_distinct(s: Seq<Seq<u16>>)
    requires
        forall|i: int, j: int| 0 <= i < j < s.len() && s[i].len() > 0 ==> #[trigger] s[i] != #[trigger] s[j],
    ensures
        s.filter(|b: Seq<u16>| b.len() > 0).no_duplicates(),
    decreases s.len(),
{
    let pred = |b: Seq<u16>| b.len() > 0;
    reveal(Seq::filter);
    if s.len() > 0 {
        let d = s.drop_last();
        assert forall|i: int, j: int| 0 <= i < j < d.len() && d[i].len() > 0 implies #[trigger] d[i] != #[trigger] d[j] by {
            assert(s[i] == d[i] && s[j] == d[j]);
        }
        lemma_filter_nonempty_distinct(d);
        let sub = d.filter(pred);
        if pred(s.last()) {
            assert(!sub.contains(s.last())) by {
                if sub.contains(s.last()) {
                    d.lemma_filter_contains_rev(pred, s.last());
                    let q = choose|q: int| 0 <= q < d.len() && d[q] == s.last();
                    assert(s[q] == s[s.len() - 1]);
                }
            }
            assert(sub.push(s.last()).no_duplicates()) by {
                let t = sub.push(s.last());
                assert forall|i: int, j: int| 0 <= i < t.len() && 0 <= j < t.len() && i != j implies t[i] != t[j] by {
                    if i < sub.len() && j < sub.len() {
                        assert(t[i] == sub[i] && t[j] == sub[j]);
                    } else if i < sub.len() {
                        assert(t[i] == sub[i]);
                        assert(sub.contains(sub[i]));
                    } else {
                        assert(t[j] == sub[j]);
                        assert(sub.contains(sub[j]));
                    }
                }
            }
        }
    }
}

/// No bucket occurs twice among the children of a guess.
pub proof fn lemma_children_distinct(sp: Seq<Seq<u8>>, slots: nat, c: Seq<u16>, g: int)
    ensures
        children_spec(sp, slots, c, g).no_duplicates(),
{
    let all = Seq::new(25, |f: int| bucket(sp, slots, c, g, f));
    assert forall|i: int, j: int| 0 <= i < j < all.len() && all[i].len() > 0 implies #[trigger] all[i]
        != #[trigger] all[j] by {
        if all[i] == all[j] {
            let id = all[i][0];
            assert(all[i].contains(id));
            if i != slots * 5 && j != slots * 5 {
                let pi = |v: u16| fb_code(sp, g, v as int) == i;
                let pj = |v: u16| fb_code(sp, g, v as int) == j;
                assert(c.filter(pi)[0] == id);
                c.lemma_filter_pred(pi, 0);
                assert(c.filter(pj)[0] == id);
                c.lemma_filter_pred(pj, 0);
            }
        }
    }
    lemma_filter_nonempty_distinct(all);
}

/// Guesses joined from a first guess for `c` and, for each bucket of it, the
/// guesses of a strategy for that bucket.
pub open spec fn joined(
    sp: Seq<Seq<u8>>,
    slots: nat,
    c: Seq<u16>,
    g: u16,
    ws: Map<Seq<u16>, Map<Seq<u16>, u16>>,
) -> Map<Seq<u16>, u16> {
    Map::new(
        |k: Seq<u16>|
            k == c || (k.len() >= 1 && ws.contains_key(bucket_of(sp, slots, c, g as int, k[0])) && ws[bucket_of(
                sp,
                slots,
                c,
                g as int,
                k[0],
            )].contains_key(k)),
        |k: Seq<u16>|
            if k == c {
                g
            } else {
                ws[bucket_of(sp, slots, c, g as int, k[0])][k]
            },
    )
}

/// Below each smaller bucket, the joined guesses are the bucket's own.
proof fn lemma_joined_agrees(
    sp: Seq<Seq<u8>>,
    slots: nat,
    c: Seq<u16>,
    g: u16,
    ws: Map<Seq<u16>, Map<Seq<u16>, u16>>,
    x: Seq<u16>,
)
    requires
        children_spec(sp, slots, c, g as int).contains(x),
        x.len() < c.len(),
        ws.contains_key(x),
    ensures
        agree_below(ws[x], joined(sp, slots, c, g, ws), x),
{
    let j = joined(sp, slots, c, g, ws);
    assert forall|k: Seq<u16>| #[trigger] within(k, x) && 2 <= k.len() <= x.len() implies ws[x].contains_key(k)
        == j.contains_key(k) && (ws[x].contains_key(k) ==> ws[x][k] == j[k]) by {
        assert(x.contains(k[0]));
        lemma_child_bucket(sp, slots, c, g as int, x, k[0]);
        assert(k != c);
    }
}

/// Adds the total of the node of a state.
pub open spec fn add_total(nodes: Map<Seq<u16>, Node>) -> spec_fn(nat, Seq<u16>) -> nat {
    |acc: nat, x: Seq<u16>| (acc + nodes[x].total) as nat
}

/// Keeps one more than the largest worst case seen.
pub open spec fn max_worst(nodes: Map<Seq<u16>, Node>) -> spec_fn(nat, Seq<u16>) -> nat {
    |acc: nat, x: Seq<u16>|
        if nodes[x].worst + 1 > acc {
            (nodes[x].worst + 1) as nat
        } else {
            acc
        }
}

/// The sum of the totals of the nodes of `chs`.
pub open spec fn forest_total(chs: Seq<Seq<u16>>, nodes: Map<Seq<u16>, Node>) -> nat {
    chs.fold_left(0nat, add_total(nodes))
}

/// One more than the largest worst case of the nodes of `chs`, at least 1.
pub open spec fn forest_worst(chs: Seq<Seq<u16>>, nodes: Map<Seq<u16>, Node>) -> nat {
    chs.fold_left(1nat, max_worst(nodes))
}

/// The order of the states does not change the sum or the largest case.
proof fn lemma_forest_order(a: Seq<Seq<u16>>, b: Seq<Seq<u16>>, nodes: Map<Seq<u16>, Node>)
    requires
        a.to_multiset() == b.to_multiset(),
    ensures
        forest_total(a, nodes) == forest_total(b, nodes),
        forest_worst(a, nodes) == forest_worst(b, nodes),
{
    let ft = add_total(nodes);
    let fw = max_worst(nodes);
    assert(vstd::seq_lib::commutative_foldl(ft));
    assert(vstd::seq_lib::commutative_foldl(fw));
    lemma_fold_left_permutation(a, b, ft, 0nat);
    lemma_fold_left_permutation(a, b, fw, 1nat);
}

/// When every state of `chs` is smaller than `bound` and its strategy under
/// `gs` is within its node, the forest is within the nodes' sum and largest case.
proof fn lemma_forest_within(
    sp: Seq<Seq<u8>>,
    slots: nat,
    gs: Map<Seq<u16>, u16>,
    chs: Seq<Seq<u16>>,
    bound: nat,
    nodes: Map<Seq<u16>, Node>,
    ex: bool,
)
    requires
        forall|x: Seq<u16>| #[trigger] chs.contains(x) ==> x.len() < bound && (strategy_tree(sp, slots, gs, x) matches Ok(
            t,
        ) && t.total <= nodes[x].total && t.worst <= nodes[x].worst && (ex ==> t.total == nodes[x].total
            && t.worst == nodes[x].worst)),
    ensures
        strategy_forest(sp, slots, gs, chs, bound) matches Ok(fs) && fs.total <= forest_total(chs, nodes) && fs.worst
            <= forest_worst(chs, nodes) && (ex ==> fs.total == forest_total(chs, nodes) && fs.worst == forest_worst(
            chs,
            nodes,
        )),
    decreases chs.len(),
{
    if chs.len() > 0 {
        assert forall|x: Seq<u16>| #[trigger] chs.drop_last().contains(x) implies x.len() < bound && (strategy_tree(
            sp,
            slots,
            gs,
            x,
        ) matches Ok(t) && t.total <= nodes[x].total && t.worst <= nodes[x].worst && (ex ==> t.total == nodes[x].total
            && t.worst == nodes[x].worst)) by {
            let q = choose|q: int| 0 <= q < chs.drop_last().len() && chs.drop_last()[q] == x;
            assert(chs.contains(chs[q]));
        }
        lemma_forest_within(sp, slots, gs, chs.drop_last(), bound, nodes, ex);
        assert(chs.contains(chs.last()));
    }
}

/// A guess for `c` all of whose buckets are smaller than `c` and have
/// realized nodes, listed in any order in `chs`, is realized with `c.len()`
/// plus the sum of their totals and one more than their largest worst case.
pub proof fn lemma_join_realizes(
    sp: Seq<Seq<u8>>,
    slots: nat,
    c: Seq<u16>,
    chs: Seq<Seq<u16>>,
    nodes: Map<Seq<u16>, Node>,
    ws: Map<Seq<u16>, Map<Seq<u16>, u16>>,
    node: Node,
)
    requires
        c.len() >= 2,
        chs.to_multiset() == children_spec(sp, slots, c, node.guess as int).to_multiset(),
        forall|x: Seq<u16>| #[trigger] chs.contains(x) ==> x.len() < c.len() && ws.contains_key(x) && (strategy_tree(
            sp,
            slots,
            ws[x],
            x,
        ) matches Ok(t) && t.total <= nodes[x].total && t.worst <= nodes[x].worst && (exact_state(sp, slots, x) ==> t.total
            == nodes[x].total && t.worst == nodes[x].worst)),
        node.total == c.len() + forest_total(chs, nodes),
        node.worst == forest_worst(chs, nodes),
        (node.guess as nat) < sp.len(),
        forall|x: Seq<u16>| #[trigger] ws.contains_key(x) ==> guesses_in(ws[x], sp.len()),
    ensures
        realizes(sp, slots, c, node),
{
    broadcast use vstd::seq_lib::group_to_multiset_ensures;

    let g = node.guess;
    let cs = children_spec(sp, slots, c, g as int);
    let j = joined(sp, slots, c, g, ws);
    assert(j.contains_key(c) && j[c] == g);
    assert(tree_guess(j, c) == Some(g));
    let ex = exact_state(sp, slots, c);
    if ex {
        lemma_children_shaped(sp, slots, c, g as int);
    }
    assert forall|x: Seq<u16>| #[trigger] cs.contains(x) implies x.len() < c.len() && (strategy_tree(sp, slots, j, x) matches Ok(
        t,
    ) && t.total <= nodes[x].total && t.worst <= nodes[x].worst && (ex ==> t.total == nodes[x].total
        && t.worst == nodes[x].worst)) by {
        assert(cs.to_multiset().count(x) > 0);
        assert(chs.contains(x));
        lemma_joined_agrees(sp, slots, c, g, ws, x);
        lemma_children_subset(sp, slots, c, g as int);
        assert(within(x, x)) by {
            assert forall|i: int| 0 <= i < x.len() implies x.contains(#[trigger] x[i]) by {}
        }
        lemma_tree_local(sp, slots, ws[x], j, x, x);
    }
    lemma_forest_within(sp, slots, j, cs, c.len(), nodes, ex);
    lemma_forest_order(cs, chs, nodes);
    let t = strategy_tree(sp, slots, j, c);
    assert forall|k: Seq<u16>| #[trigger] j.contains_key(k) implies (j[k] as nat) < sp.len() by {
        if k != c {
            assert(ws.contains_key(bucket_of(sp, slots, c, g as int, k[0])));
        }
    }
    assert(t matches Ok(tt) && tt.guess == node.guess && tt.total <= node.total && tt.worst <= node.worst && (ex ==> tt.total
        == node.total && tt.worst == node.worst));
}

/// A single candidate is found by guessing it.
proof fn lemma_single_tree(sp: Seq<Seq<u8>>, slots: nat, gs: Map<Seq<u16>, u16>, x: Seq<u16>)
    requires
        x.len() == 1,
        fb_code(sp, x[0] as int, x[0] as int) == slots * 5,
    ensures
        strategy_tree(sp, slots, gs, x) matches Ok(t) && t.guess == x[0] && t.total == 1 && t.worst == 1,
{
    let a = x[0];
    let cs = children_spec(sp, slots, x, a as int);
    lemma_children_subset(sp, slots, x, a as int);
    if cs.len() > 0 {
        let y = cs[0];
        assert(cs.contains(y));
        assert(x.contains(y[0]));
        lemma_child_bucket(sp, slots, x, a as int, y, y[0]);
        assert(y[0] == a);
        assert(bucket_of(sp, slots, x, a as int, y[0]).len() == 0);
    }
    assert(cs.len() == 0);
}

/// One or two candidates are found by guessing the first and then, if
/// needed, the second.
pub proof fn lemma_small_realizes(sp: Seq<Seq<u8>>, slots: nat, c: Seq<u16>) -> (gs: Map<Seq<u16>, u16>)
    requires
        1 <= c.len() <= 2,
        forall|i: int| 0 <= i < c.len() ==> fb_code(sp, #[trigger] c[i] as int, c[i] as int) == slots * 5,
        (c[0] as nat) < sp.len(),
    ensures
        realizes(sp, slots, c, Node { guess: c[0], total: (2 * c.len() - 1) as usize, worst: c.len() as usize }),
        strategy_tree(sp, slots, gs, c) matches Ok(t) && t.total <= 2 * c.len() - 1,
        forall|k: Seq<u16>| #[trigger] gs.contains_key(k) ==> gs[k] == c[0],
{
    if c.len() == 1 {
        let gs = Map::<Seq<u16>, u16>::empty();
        assert(fb_code(sp, c[0] as int, c[0] as int) == slots * 5);
        lemma_single_tree(sp, slots, gs, c);
        assert(strategy_tree(sp, slots, gs, c) matches Ok(t) && t.guess == c[0] && t.total <= 1 && t.worst <= 1);
        gs
    } else {
        let a = c[0];
        let b = c[1];
        assert(fb_code(sp, a as int, a as int) == slots * 5);
        assert(fb_code(sp, b as int, b as int) == slots * 5);
        let gs = Map::<Seq<u16>, u16>::empty().insert(c, a);
        let cs = children_spec(sp, slots, c, a as int);
        lemma_children_subset(sp, slots, c, a as int);
        lemma_children_distinct(sp, slots, c, a as int);
        assert forall|y: Seq<u16>| #[trigger] cs.contains(y) implies y =~= seq![b] by {
            assert(c.contains(y[0]));
            lemma_child_bucket(sp, slots, c, a as int, y, y[0]);
            let f = fb_code(sp, a as int, y[0] as int);
            assert(f != slots * 5);
            let p = |v: u16| fb_code(sp, a as int, v as int) == f;
            assert(y == c.filter(p));
            reveal_with_fuel(Seq::filter, 3);
            assert(c.drop_last().drop_last().len() == 0);
            assert(c.drop_last().last() == a);
            assert(!p(a));
            assert(c.drop_last().filter(p).len() == 0);
        }
        if cs.len() >= 2 {
            assert(cs.contains(cs[0]) && cs.contains(cs[1]));
            assert(cs[0] == cs[1]);
        }
        if exact_state(sp, slots, c) && cs.len() == 0 {
            let f = fb_code(sp, a as int, b as int);
            let pt = |id: u16| fb_code(sp, a as int, id as int) == slots * 5;
            if f == slots * 5 {
                lemma_found_at_most_one(sp, slots, c, a as int);
                reveal_with_fuel(Seq::filter, 3);
                assert(c.drop_last().drop_last().len() == 0);
                assert(c.filter(pt).len() == 2);
            }
            let q = |v: u16| fb_code(sp, a as int, v as int) == f;
            crate::symmetry::lemma_filter_has(c, q, b);
            assert(c.contains(b)) by {
                assert(c[1] == b);
            }
            let bk = bucket(sp, slots, c, a as int, f);
            assert(bk == c.filter(q));
            assert(bk.len() > 0) by {
                let i = choose|i: int| 0 <= i < bk.len() && bk[i] == b;
            }
            assert(0 <= f < 25) by {
                assert(sp[a as int].len() == slots && sp[b as int].len() == slots);
                crate::judge::lemma_feedback_bounds(sp[a as int], sp[b as int]);
            }
            let all = Seq::new(25, |g: int| bucket(sp, slots, c, a as int, g));
            assert(all[f] == bk);
            crate::symmetry::lemma_filter_has(all, |x: Seq<u16>| x.len() > 0, bk);
            assert(all.contains(bk));
            assert(cs.contains(bk));
        }
        assert(tree_guess(gs, c) == Some(a));
        if cs.len() == 1 {
            assert(cs.contains(cs[0]));
            lemma_single_tree(sp, slots, gs, seq![b]);
            assert(cs.drop_last().len() == 0);
            assert(strategy_forest(sp, slots, gs, cs.drop_last(), 2) == Ok::<_, crate::optimal::TreeFault>(
                crate::optimal::Forest { total: 0, worst: 1, rows: Map::empty() },
            ));
        }
        assert(strategy_tree(sp, slots, gs, c) matches Ok(t) && t.guess == a && t.total <= 3 && t.worst <= 2);
        gs
    }
}

/// Storing an entry whose strategy, if any, is realized keeps every
/// memoized strategy realized.
pub proof fn lemma_realized_insert(sp: Seq<Seq<u8>>, slots: nat, m: Map<Seq<u16>, Entry>, c: Seq<u16>, e: Entry)
    requires
        memo_realized(sp, slots, m),
        e.upper matches Some(nd) ==> realizes(sp, slots, c, nd),
    ensures
        memo_realized(sp, slots, m.insert(c, e)),
{
    assert forall|k: Seq<u16>| #[trigger] m.insert(c, e).contains_key(k) implies (m.insert(c, e)[k].upper matches Some(
        nd,
    ) ==> realizes(sp, slots, k, nd)) by {
        if k != c {
            assert(m.contains_key(k));
        }
    }
}

/// A memo whose every strategy is one the realized memo `m` held for the
/// same set is realized too.
pub proof fn lemma_realized_same_uppers(sp: Seq<Seq<u8>>, slots: nat, m: Map<Seq<u16>, Entry>, m2: Map<Seq<u16>, Entry>)
    requires
        memo_realized(sp, slots, m),
        forall|k: Seq<u16>| #[trigger] m2.contains_key(k) && m2[k].upper is Some ==> m.contains_key(k) && m2[k].upper
            == m[k].upper,
    ensures
        memo_realized(sp, slots, m2),
{
    assert forall|k: Seq<u16>| #[trigger] m2.contains_key(k) implies (m2[k].upper matches Some(nd) ==> realizes(
        sp,
        slots,
        k,
        nd,
    )) by {
        if m2[k].upper is Some {
            assert(m.contains_key(k));
        }
    }
}

/// Nodes that agree on the states of `s` give `s` the same sum and largest case.
proof fn lemma_forest_agree(s: Seq<Seq<u16>>, n1: Map<Seq<u16>, Node>, n2: Map<Seq<u16>, Node>)
    requires
        forall|x: Seq<u16>| #[trigger] s.contains(x) ==> n1[x] == n2[x],
    ensures
        forest_total(s, n1) == forest_total(s, n2),
        forest_worst(s, n1) == forest_worst(s, n2),
    decreases s.len(),
{
    if s.len() > 0 {
        assert forall|x: Seq<u16>| #[trigger] s.drop_last().contains(x) implies n1[x] == n2[x] by {
            let q = choose|q: int| 0 <= q < s.drop_last().len() && s.drop_last()[q] == x;
            assert(s.contains(s[q]));
        }
        lemma_forest_agree(s.drop_last(), n1, n2);
        assert(s.contains(s.last()));
    }
}

/// Adding the node of the next state of a list without repeats.
pub proof fn lemma_forest_push(cd: Seq<Seq<u16>>, k: int, nodes: Map<Seq<u16>, Node>, node: Node)
    requires
        0 <= k < cd.len(),
        cd.no_duplicates(),
    ensures
        forest_total(cd.take(k + 1), nodes.insert(cd[k], node)) == forest_total(cd.take(k), nodes) + node.total,
        forest_worst(cd.take(k + 1), nodes.insert(cd[k], node)) == if node.worst + 1 > forest_worst(cd.take(k), nodes) {
            (node.worst + 1) as nat
        } else {
            forest_worst(cd.take(k), nodes)
        },
{
    let n2 = nodes.insert(cd[k], node);
    assert(cd.take(k + 1).drop_last() =~= cd.take(k));
    assert(cd.take(k + 1).last() == cd[k]);
    assert forall|x: Seq<u16>| #[trigger] cd.take(k).contains(x) implies nodes[x] == n2[x] by {
        let q = choose|q: int| 0 <= q < cd.take(k).len() && cd.take(k)[q] == x;
        assert(cd[q] == x);
        assert(x != cd[k]);
    }
    lemma_forest_agree(cd.take(k), nodes, n2);
}

} // verus!
