//! Exact minimax lookahead for small candidate sets: the fewest submissions
//! that a guess can guarantee within a depth budget.
use vstd::prelude::*;

use crate::judge::{
    exact_matches, feedback, judge, lemma_all_exact_iff_equal, lemma_feedback_bounds, lemma_feedback_self, overlap,
};
use crate::keymap::KeyMap;
use crate::model::Settings;
use crate::solver::{enumerable, enumerate_space, lemma_space_size_bound, power, space_of};

verus! {

/// Feedback of guess `g` against code `c` as one number:
/// `exact * (slots + 1) + partial`.
pub open spec fn fb_slot(g: Seq<u8>, c: Seq<u8>, slots: nat) -> int {
    feedback(g, c).0 * (slots + 1) + feedback(g, c).1
}

/// The number of the feedback that ends the game: every slot exact.
pub open spec fn terminal_slot(slots: nat) -> int {
    (slots * (slots + 1)) as int
}

/// Number of feedback numbers.
pub open spec fn slot_count(slots: nat) -> nat {
    (slots + 1) * (slots + 1)
}

/// The candidates that give feedback number `f` against `g`, in order.
pub open spec fn bucket_of(cands: Seq<Seq<u8>>, g: Seq<u8>, slots: nat, f: int) -> Seq<Seq<u8>> {
    cands.filter(|c: Seq<u8>| fb_slot(g, c, slots) == f)
}

/// The fewest submissions, this guess and the final one included, that some
/// guess of `guesses` guarantees for `cands` within `budget` submissions;
/// none if no guess does. The guesses are tried in order and the search
/// stops at the first guarantee of two.
pub open spec fn steps_spec(cands: Seq<Seq<u8>>, guesses: Seq<Seq<u8>>, slots: nat, budget: nat) -> Option<nat>
    decreases budget, 2nat, 0nat,
{
    if budget == 0 {
        None
    } else if cands.len() == 1 {
        Some(1)
    } else {
        best_from(cands, guesses, slots, budget, guesses.len())
    }
}

/// The best guarantee among the first `k` guesses.
pub open spec fn best_from(cands: Seq<Seq<u8>>, guesses: Seq<Seq<u8>>, slots: nat, budget: nat, k: nat) -> Option<nat>
    decreases budget, 1nat, k,
{
    if k == 0 || budget == 0 {
        None
    } else {
        let prev = best_from(cands, guesses, slots, budget, (k - 1) as nat);
        if prev == Some(2nat) {
            prev
        } else {
            match worst_from(guesses[k - 1], cands, guesses, slots, budget, slot_count(slots)) {
                None => prev,
                Some(w) => match prev {
                    None => Some(1 + w),
                    Some(b) => if 1 + w < b {
                        Some(1 + w)
                    } else {
                        prev
                    },
                },
            }
        }
    }
}

/// The most submissions still needed after guessing `g`, over the
/// non-terminal feedback numbers below `f` that some candidate gives; none
/// if one of them cannot be finished within the remaining budget.
pub open spec fn worst_from(
    g: Seq<u8>,
    cands: Seq<Seq<u8>>,
    guesses: Seq<Seq<u8>>,
    slots: nat,
    budget: nat,
    f: nat,
) -> Option<nat>
    decreases budget, 0nat, f,
{
    if budget == 0 {
        None
    } else if f == 0 {
        Some(0)
    } else {
        match worst_from(g, cands, guesses, slots, budget, (f - 1) as nat) {
            None => None,
            Some(w) => {
                let b = bucket_of(cands, g, slots, f - 1);
                if f - 1 == terminal_slot(slots) || b.len() == 0 {
                    Some(w)
                } else {
                    match steps_spec(b, guesses, slots, (budget - 1) as nat) {
                        None => None,
                        Some(v) => Some(
                            if v > w {
                                v
                            } else {
                                w
                            },
                        ),
                    }
                }
            },
        }
    }
}

/// A guarantee never exceeds the budget.
pub proof fn lemma_steps_bound(cands: Seq<Seq<u8>>, guesses: Seq<Seq<u8>>, slots: nat, budget: nat)
    ensures
        steps_spec(cands, guesses, slots, budget) matches Some(v) ==> 1 <= v <= budget,
    decreases budget, 2nat, 0nat,
{
    if budget > 0 && cands.len() != 1 {
        lemma_best_bound(cands, guesses, slots, budget, guesses.len());
    }
}

proof fn lemma_best_bound(cands: Seq<Seq<u8>>, guesses: Seq<Seq<u8>>, slots: nat, budget: nat, k: nat)
    ensures
        best_from(cands, guesses, slots, budget, k) matches Some(v) ==> 1 <= v <= budget,
    decreases budget, 1nat, k,
{
    if k > 0 && budget > 0 {
        lemma_best_bound(cands, guesses, slots, budget, (k - 1) as nat);
        lemma_worst_bound(guesses[k - 1], cands, guesses, slots, budget, slot_count(slots));
    }
}

proof fn lemma_worst_bound(g: Seq<u8>, cands: Seq<Seq<u8>>, guesses: Seq<Seq<u8>>, slots: nat, budget: nat, f: nat)
    ensures
        worst_from(g, cands, guesses, slots, budget, f) matches Some(w) ==> w < budget,
    decreases budget, 0nat, f,
{
    if budget > 0 && f > 0 {
        lemma_worst_bound(g, cands, guesses, slots, budget, (f - 1) as nat);
        let b = bucket_of(cands, g, slots, f - 1);
        lemma_steps_bound(b, guesses, slots, (budget - 1) as nat);
    }
}

/// All codes of `cs` have `len` slots.
pub open spec fn all_len(cs: Seq<Seq<u8>>, len: nat) -> bool {
    forall|i: int| 0 <= i < cs.len() ==> (#[trigger] cs[i]).len() == len
}

/// The codes of `cs`, one after the other.
pub open spec fn flat(cs: Seq<Seq<u8>>) -> Seq<u16>
    decreases cs.len(),
{
    if cs.len() == 0 {
        Seq::empty()
    } else {
        flat(cs.drop_last()) + cs.last().map_values(|x: u8| x as u16)
    }
}

/// The budget `b` as four 16-bit words, lowest first.
pub open spec fn budget_words(b: nat) -> Seq<u16> {
    seq![(b as u64) as u16, ((b as u64) >> 16u64) as u16, ((b as u64) >> 32u64) as u16, ((b as u64) >> 48u64) as u16]
}

/// The memo key of candidates `cs` under budget `b`.
pub open spec fn memo_key(b: nat, cs: Seq<Seq<u8>>) -> Seq<u16> {
    budget_words(b) + flat(cs)
}

/// A 64-bit number is fixed by its four 16-bit words.
proof fn lemma_words_injective(x: u64, y: u64)
    by (bit_vector)
    requires
        x as u16 == y as u16,
        (x >> 16u64) as u16 == (y >> 16u64) as u16,
        (x >> 32u64) as u16 == (y >> 32u64) as u16,
        (x >> 48u64) as u16 == (y >> 48u64) as u16,
    ensures
        x == y,
{
}

proof fn lemma_flat_len(cs: Seq<Seq<u8>>, len: nat)
    requires
        all_len(cs, len),
    ensures
        flat(cs).len() == len * cs.len(),
    decreases cs.len(),
{
    if cs.len() > 0 {
        assert(all_len(cs.drop_last(), len));
        lemma_flat_len(cs.drop_last(), len);
        assert(cs.last() == cs[cs.len() - 1]);
        assert(len * cs.len() == len * (cs.len() - 1) + len) by (nonlinear_arith)
            requires
                cs.len() >= 1,
        ;
    }
}

/// Codes of one length are told apart by their concatenation.
proof fn lemma_flat_injective(a: Seq<Seq<u8>>, b: Seq<Seq<u8>>, len: nat)
    requires
        len >= 1,
        all_len(a, len),
        all_len(b, len),
        flat(a) == flat(b),
    ensures
        a == b,
    decreases a.len(),
{
    lemma_flat_len(a, len);
    lemma_flat_len(b, len);
    assert(a.len() == b.len()) by (nonlinear_arith)
        requires
            len * a.len() == len * b.len(),
            len >= 1,
    ;
    if a.len() > 0 {
        assert(all_len(a.drop_last(), len));
        assert(all_len(b.drop_last(), len));
        lemma_flat_len(a.drop_last(), len);
        lemma_flat_len(b.drop_last(), len);
        let k = flat(a.drop_last()).len();
        assert(k == len * (a.len() - 1)) by (nonlinear_arith)
            requires
                k == len * (a.len() - 1),
        ;
        assert(flat(b.drop_last()).len() == k);
        assert(a.last() == a[a.len() - 1]);
        assert(b.last() == b[b.len() - 1]);
        let la = a.last().map_values(|x: u8| x as u16);
        let lb = b.last().map_values(|x: u8| x as u16);
        assert(flat(a) == flat(a.drop_last()) + la);
        assert(flat(b) == flat(b.drop_last()) + lb);
        assert(flat(a.drop_last()) =~= flat(a).subrange(0, k as int));
        assert(flat(b.drop_last()) =~= flat(b).subrange(0, k as int));
        lemma_flat_injective(a.drop_last(), b.drop_last(), len);
        assert(la =~= flat(a).subrange(k as int, flat(a).len() as int));
        assert(lb =~= flat(b).subrange(k as int, flat(b).len() as int));
        assert forall|i: int| 0 <= i < len implies a.last()[i] == b.last()[i] by {
            assert(la[i] == lb[i]);
        }
        assert(a.last() =~= b.last());
        assert(a =~= a.drop_last().push(a.last()));
        assert(b =~= b.drop_last().push(b.last()));
    }
}

/// Memoized guarantees are the exact ones.
pub open spec fn memo_ok(memo: Map<Seq<u16>, Option<usize>>, guesses: Seq<Seq<u8>>, slots: nat) -> bool {
    forall|b: nat, cs: Seq<Seq<u8>>|
        #![trigger memo.contains_key(memo_key(b, cs))]
        b <= u64::MAX && all_len(cs, slots) && memo.contains_key(memo_key(b, cs)) ==> match memo[memo_key(b, cs)] {
            Some(v) => steps_spec(cs, guesses, slots, b) == Some(v as nat),
            None => steps_spec(cs, guesses, slots, b) is None,
        }
}


/// A memo answer and a guarantee say the same.
pub open spec fn same_answer(v: Option<usize>, s: Option<nat>) -> bool {
    match v {
        Some(x) => s == Some(x as nat),
        None => s is None,
    }
}

proof fn lemma_key_injective(b: nat, cs: Seq<Seq<u8>>, b0: nat, cs0: Seq<Seq<u8>>, slots: nat)
    requires
        b <= u64::MAX,
        b0 <= u64::MAX,
        slots >= 1,
        all_len(cs, slots),
        all_len(cs0, slots),
        memo_key(b, cs) == memo_key(b0, cs0),
    ensures
        b == b0,
        cs == cs0,
{
    let k = memo_key(b, cs);
    let k0 = memo_key(b0, cs0);
    assert(k[0] == k0[0] && k[1] == k0[1] && k[2] == k0[2] && k[3] == k0[3]);
    lemma_words_injective(b as u64, b0 as u64);
    assert(flat(cs) =~= k.subrange(4, k.len() as int));
    assert(flat(cs0) =~= k0.subrange(4, k0.len() as int));
    lemma_flat_injective(cs, cs0, slots);
}

proof fn lemma_best_stays_two(cands: Seq<Seq<u8>>, guesses: Seq<Seq<u8>>, slots: nat, budget: nat, j: nat, k: nat)
    requires
        j <= k,
        best_from(cands, guesses, slots, budget, j) == Some(2nat),
    ensures
        best_from(cands, guesses, slots, budget, k) == Some(2nat),
    decreases k,
{
    if k > j {
        lemma_best_stays_two(cands, guesses, slots, budget, j, (k - 1) as nat);
    }
}

proof fn lemma_worst_stays_none(
    g: Seq<u8>,
    cands: Seq<Seq<u8>>,
    guesses: Seq<Seq<u8>>,
    slots: nat,
    budget: nat,
    j: nat,
    k: nat,
)
    requires
        j <= k,
        worst_from(g, cands, guesses, slots, budget, j) is None,
    ensures
        worst_from(g, cands, guesses, slots, budget, k) is None,
    decreases k,
{
    if k > j {
        lemma_worst_stays_none(g, cands, guesses, slots, budget, j, (k - 1) as nat);
    }
}

/// Whether a stop was requested (`AtomicBool::load`).
fn stop_requested(cancel: Option<&std::sync::atomic::AtomicBool>) -> (b: bool)
    ensures
        cancel is None ==> !b,
{
    match cancel {
        Some(flag) => flag.load(std::sync::atomic::Ordering::Relaxed),
        None => false,
    }
}

/// A copy of a code.
fn copy_code(s: &[u8]) -> (v: Vec<u8>)
    ensures
        v@ == s@,
{
    let mut v: Vec<u8> = Vec::new();
    let mut i: usize = 0;
    while i < s.len()
        invariant
            i <= s@.len(),
            v@ =~= s@.take(i as int),
        decreases s@.len() - i,
    {
        v.push(s[i]);
        i += 1;
    }
    assert(s@.take(s@.len() as int) =~= s@);
    v
}

/// A copy of a list of codes.
fn copy_codes(s: &[Vec<u8>]) -> (v: Vec<Vec<u8>>)
    ensures
        v.deep_view() == s@.map_values(|c: Vec<u8>| c@),
{
    let mut v: Vec<Vec<u8>> = Vec::new();
    let mut i: usize = 0;
    while i < s.len()
        invariant
            i <= s@.len(),
            v.deep_view() =~= s@.take(i as int).map_values(|c: Vec<u8>| c@),
        decreases s@.len() - i,
    {
        let c = copy_code(s[i].as_slice());
        assert(c.deep_view() =~= c@);
        let ghost before = v.deep_view();
        v.push(c);
        assert(v.deep_view() =~= before.push(s@[i as int]@));
        assert(s@.take(i + 1).map_values(|c: Vec<u8>| c@) =~= s@.take(i as int).map_values(|c: Vec<u8>| c@).push(
            s@[i as int]@,
        ));
        i += 1;
    }
    assert(s@.take(s@.len() as int) =~= s@);
    v
}

/// The memo key of `cands` under `budget`.
fn make_key(budget: usize, cands: &Vec<Vec<u8>>) -> (key: Vec<u16>)
    ensures
        key@ == memo_key(budget as nat, cands.deep_view()),
{
    let ghost cv = cands.deep_view();
    let mut key: Vec<u16> = Vec::new();
    let wide = budget as u64;
    key.push(wide as u16);
    key.push((wide >> 16u64) as u16);
    key.push((wide >> 32u64) as u16);
    key.push((wide >> 48u64) as u16);
    let mut i: usize = 0;
    assert(cv.take(0) =~= Seq::<Seq<u8>>::empty());
    assert(key@ =~= budget_words(budget as nat));
    while i < cands.len()
        invariant
            cv == cands.deep_view(),
            i <= cands@.len(),
            key@ =~= budget_words(budget as nat) + flat(cv.take(i as int)),
        decreases cands@.len() - i,
    {
        let code = &cands[i];
        assert(cv[i as int] == code@);
        let ghost head = key@;
        let mut j: usize = 0;
        while j < code.len()
            invariant
                j <= code@.len(),
                key@ =~= head + code@.take(j as int).map_values(|x: u8| x as u16),
            decreases code@.len() - j,
        {
            key.push(code[j] as u16);
            assert(code@.take(j + 1).map_values(|x: u8| x as u16) =~= code@.take(j as int).map_values(|x: u8| x as u16).push(
                code@[j as int] as u16,
            ));
            j += 1;
        }
        assert(code@.take(code@.len() as int) =~= code@);
        assert(cv.take(i + 1).drop_last() =~= cv.take(i as int));
        assert(cv.take(i + 1).last() == code@);
        i += 1;
    }
    assert(cv.take(cands@.len() as int) =~= cv);
    key
}

/// The candidates of `cands` by feedback number against `g`.
fn split_buckets(g: &Vec<u8>, cands: &Vec<Vec<u8>>, slots: usize) -> (out: Vec<Vec<Vec<u8>>>)
    requires
        g@.len() == slots,
        slots <= 255,
        all_len(cands.deep_view(), slots as nat),
    ensures
        out@.len() == slot_count(slots as nat),
        forall|f: int| 0 <= f < out@.len() ==> (#[trigger] out@[f]).deep_view() == bucket_of(cands.deep_view(), g@, slots as nat, f),
{
    let ghost cv = cands.deep_view();
    assert((slots + 1) * (slots + 1) <= 256 * 256) by (nonlinear_arith)
        requires
            slots <= 255,
    ;
    let count = (slots + 1) * (slots + 1);
    let mut out: Vec<Vec<Vec<u8>>> = Vec::new();
    let mut f: usize = 0;
    while f < count
        invariant
            f <= count,
            count == slot_count(slots as nat),
            out@.len() == f,
            forall|q: int| 0 <= q < f ==> (#[trigger] out@[q])@.len() == 0,
        decreases count - f,
    {
        out.push(Vec::new());
        f += 1;
    }
    let mut i: usize = 0;
    while i < cands.len()
        invariant
            cv == cands.deep_view(),
            g@.len() == slots,
            slots <= 255,
            all_len(cv, slots as nat),
            count == slot_count(slots as nat),
            out@.len() == count,
            i <= cands@.len(),
            forall|q: int| 0 <= q < count ==> (#[trigger] out@[q]).deep_view() == bucket_of(cv.take(i as int), g@, slots as nat, q),
        decreases cands@.len() - i,
    {
        let c = &cands[i];
        assert(cv[i as int] == c@);
        assert(c@.len() == slots);
        let (e, p) = judge(g.as_slice(), c.as_slice());
        assert(e as int * (slots + 1) + p as int <= 256 * 256) by (nonlinear_arith)
            requires
                e + p <= slots,
                slots <= 255,
        ;
        let idx = e as usize * (slots + 1) + p as usize;
        assert(idx < count) by (nonlinear_arith)
            requires
                idx == e * (slots + 1) + p,
                e + p <= slots,
                count == (slots + 1) * (slots + 1),
        ;
        assert(idx == fb_slot(g@, c@, slots as nat));
        let copy = copy_code(c.as_slice());
        let ghost before = out@;
        out[idx].push(copy);
        proof {
            let pre = cv.take(i as int);
            assert(cv.take(i + 1) =~= pre.push(c@));
            assert forall|q: int| 0 <= q < count implies (#[trigger] out@[q]).deep_view() == bucket_of(cv.take(i + 1), g@, slots as nat, q) by {
                reveal_with_fuel(Seq::filter, 1);
                assert(cv.take(i + 1).drop_last() =~= pre);
                if q == idx {
                    assert(out@[q]@ == before[q]@.push(copy));
                    assert(out@[q].deep_view() =~= before[q].deep_view().push(c@));
                } else {
                    assert(out@[q] == before[q]);
                }
            }
        }
        i += 1;
    }
    assert(cv.take(cands@.len() as int) =~= cv);
    out
}


/// What the recursive search relies on in its arguments.
pub open spec fn search_ready(cands: Seq<Seq<u8>>, guesses: Seq<Seq<u8>>, slots: nat) -> bool {
    &&& 1 <= slots <= 255
    &&& all_len(cands, slots)
    &&& all_len(guesses, slots)
}

/// The guarantee for `cands` within `budget`, memoized; `None` when a stop
/// was requested.
fn search_steps(
    cands: &Vec<Vec<u8>>,
    guesses: &Vec<Vec<u8>>,
    slots: usize,
    budget: usize,
    memo: &mut KeyMap<Option<usize>>,
    cancel: Option<&std::sync::atomic::AtomicBool>,
) -> (r: Option<Option<usize>>)
    requires
        old(memo).wf(),
        memo_ok(old(memo).view(), guesses.deep_view(), slots as nat),
        search_ready(cands.deep_view(), guesses.deep_view(), slots as nat),
        cands@.len() >= 1,
    ensures
        final(memo).wf(),
        memo_ok(final(memo).view(), guesses.deep_view(), slots as nat),
        r matches Some(v) ==> same_answer(v, steps_spec(cands.deep_view(), guesses.deep_view(), slots as nat, budget as nat)),
        cancel is None ==> r is Some,
    decreases budget, 1nat,
{
    let ghost cv = cands.deep_view();
    let ghost gv = guesses.deep_view();
    if stop_requested(cancel) {
        return None;
    }
    if budget == 0 {
        return Some(None);
    }
    if cands.len() == 1 {
        return Some(Some(1));
    }
    let key = make_key(budget, cands);
    match memo.get(key.as_slice()) {
        Some(v) => {
            return Some(*v);
        },
        None => {},
    }
    let mut best: Option<usize> = None;
    let mut two = false;
    let mut i: usize = 0;
    while i < guesses.len() && !two
        invariant
            cv == cands.deep_view(),
            gv == guesses.deep_view(),
            memo.wf(),
            memo_ok(memo.view(), gv, slots as nat),
            search_ready(cv, gv, slots as nat),
            cands@.len() >= 2,
            1 <= budget,
            i <= guesses@.len(),
            same_answer(best, best_from(cv, gv, slots as nat, budget as nat, i as nat)),
            two == (best_from(cv, gv, slots as nat, budget as nat, i as nat) == Some(2nat)),
            two ==> best_from(cv, gv, slots as nat, budget as nat, gv.len()) == Some(2nat),
        decreases guesses@.len() - i,
    {
        if stop_requested(cancel) {
            return None;
        }
        let g = &guesses[i];
        assert(gv[i as int] == g@);
        match search_worst(g, cands, guesses, slots, budget, memo, cancel) {
            None => {
                return None;
            },
            Some(None) => {},
            Some(Some(w)) => {
                proof {
                    lemma_worst_bound(g@, cv, gv, slots as nat, budget as nat, slot_count(slots as nat));
                }
                let total = 1 + w;
                best = match best {
                    None => Some(total),
                    Some(b) => if total < b {
                        Some(total)
                    } else {
                        Some(b)
                    },
                };
            },
        }
        i += 1;
        two = match best {
            Some(b) => b == 2,
            None => false,
        };
        proof {
            if two {
                lemma_best_stays_two(cv, gv, slots as nat, budget as nat, i as nat, gv.len());
            }
        }
    }
    assert(same_answer(best, best_from(cv, gv, slots as nat, budget as nat, gv.len())));
    assert(same_answer(best, steps_spec(cv, gv, slots as nat, budget as nat)));
    if stop_requested(cancel) {
        return None;
    }
    let ghost old_view = memo.view();
    memo.insert(key, best);
    proof {
        assert forall|b: nat, cs: Seq<Seq<u8>>|
            #![trigger memo.view().contains_key(memo_key(b, cs))]
            b <= u64::MAX && all_len(cs, slots as nat) && memo.view().contains_key(memo_key(b, cs)) implies match memo.view()[memo_key(b, cs)] {
                Some(v) => steps_spec(cs, gv, slots as nat, b) == Some(v as nat),
                None => steps_spec(cs, gv, slots as nat, b) is None,
            } by {
            if memo_key(b, cs) == memo_key(budget as nat, cv) {
                lemma_key_injective(b, cs, budget as nat, cv, slots as nat);
            } else {
                assert(old_view.contains_key(memo_key(b, cs)));
            }
        }
    }
    Some(best)
}

/// The most submissions still needed after guessing `g`, within `budget`;
/// `None` when a stop was requested.
fn search_worst(
    g: &Vec<u8>,
    cands: &Vec<Vec<u8>>,
    guesses: &Vec<Vec<u8>>,
    slots: usize,
    budget: usize,
    memo: &mut KeyMap<Option<usize>>,
    cancel: Option<&std::sync::atomic::AtomicBool>,
) -> (r: Option<Option<usize>>)
    requires
        old(memo).wf(),
        memo_ok(old(memo).view(), guesses.deep_view(), slots as nat),
        search_ready(cands.deep_view(), guesses.deep_view(), slots as nat),
        g@.len() == slots,
    ensures
        final(memo).wf(),
        memo_ok(final(memo).view(), guesses.deep_view(), slots as nat),
        r matches Some(v) ==> same_answer(
            v,
            worst_from(g@, cands.deep_view(), guesses.deep_view(), slots as nat, budget as nat, slot_count(slots as nat)),
        ),
        cancel is None ==> r is Some,
    decreases budget, 0nat,
{
    let ghost cv = cands.deep_view();
    let ghost gv = guesses.deep_view();
    if budget == 0 {
        return Some(None);
    }
    if stop_requested(cancel) {
        return None;
    }
    let buckets = split_buckets(g, cands, slots);
    assert((slots + 1) * (slots + 1) <= 256 * 256 && slots * (slots + 1) <= 256 * 256) by (nonlinear_arith)
        requires
            slots <= 255,
    ;
    let count = (slots + 1) * (slots + 1);
    let terminal = slots * (slots + 1);
    let mut worst: usize = 0;
    let mut f: usize = 0;
    while f < count
        invariant
            cv == cands.deep_view(),
            gv == guesses.deep_view(),
            memo.wf(),
            memo_ok(memo.view(), gv, slots as nat),
            search_ready(cv, gv, slots as nat),
            g@.len() == slots,
            1 <= budget,
            count == slot_count(slots as nat),
            terminal == terminal_slot(slots as nat),
            buckets@.len() == count,
            forall|q: int| 0 <= q < count ==> (#[trigger] buckets@[q]).deep_view() == bucket_of(cv, g@, slots as nat, q),
            f <= count,
            worst_from(g@, cv, gv, slots as nat, budget as nat, f as nat) == Some(worst as nat),
        decreases count - f,
    {
        let b = &buckets[f];
        assert(b.deep_view() == bucket_of(cv, g@, slots as nat, f as int));
        if f != terminal && b.len() > 0 {
            proof {
                let bv = b.deep_view();
                assert forall|q: int| 0 <= q < bv.len() implies (#[trigger] bv[q]).len() == slots by {
                    let pred = |c: Seq<u8>| fb_slot(g@, c, slots as nat) == f;
                    cv.lemma_filter_contains_rev(pred, bv[q]);
                    assert(bv.contains(bv[q]));
                }
            }
            match search_steps(b, guesses, slots, budget - 1, memo, cancel) {
                None => {
                    return None;
                },
                Some(None) => {
                    proof {
                        lemma_worst_stays_none(g@, cv, gv, slots as nat, budget as nat, (f + 1) as nat, count as nat);
                    }
                    return Some(None);
                },
                Some(Some(v)) => {
                    if v > worst {
                        worst = v;
                    }
                },
            }
        }
        f += 1;
    }
    Some(Some(worst))
}


/// The most submissions still needed after guessing `g` first, within
/// `depth` submissions, for candidates whose codes have `slots` slots.
pub open spec fn guess_worst(g: Seq<u8>, cands: Seq<Seq<u8>>, guesses: Seq<Seq<u8>>, slots: nat, depth: nat) -> Option<nat> {
    worst_from(g, cands, guesses, slots, depth, slot_count(slots))
}

/// The fewest submissions guaranteed by one of the first `k` guesses.
pub open spec fn root_best(cands: Seq<Seq<u8>>, guesses: Seq<Seq<u8>>, slots: nat, depth: nat, k: nat) -> Option<nat>
    decreases k,
{
    if k == 0 {
        None
    } else {
        let prev = root_best(cands, guesses, slots, depth, (k - 1) as nat);
        match guess_worst(guesses[k - 1], cands, guesses, slots, depth) {
            None => prev,
            Some(w) => match prev {
                None => Some(1 + w),
                Some(b) => if 1 + w < b {
                    Some(1 + w)
                } else {
                    prev
                },
            },
        }
    }
}

/// The first of the first `k` guesses that guarantees `s` submissions.
pub open spec fn first_reaching(cands: Seq<Seq<u8>>, guesses: Seq<Seq<u8>>, slots: nat, depth: nat, s: nat, k: nat) -> Option<nat>
    decreases k,
{
    if k == 0 {
        None
    } else {
        match first_reaching(cands, guesses, slots, depth, s, (k - 1) as nat) {
            Some(i) => Some(i),
            None => match guess_worst(guesses[k - 1], cands, guesses, slots, depth) {
                Some(w) => if 1 + w == s {
                    Some((k - 1) as nat)
                } else {
                    None
                },
                None => None,
            },
        }
    }
}

/// Minimax lookahead over `cands` (codes of `cands[0].len()` slots): the
/// first guess of `guesses` that guarantees the fewest submissions, this
/// guess and the final one included, within `depth` submissions, with that
/// number; none if no guess guarantees finishing within `depth`.
pub open spec fn lookahead_spec(cands: Seq<Seq<u8>>, guesses: Seq<Seq<u8>>, depth: nat) -> Option<(Seq<u8>, nat)> {
    let slots = cands[0].len();
    match root_best(cands, guesses, slots, depth, guesses.len()) {
        None => None,
        Some(s) => match first_reaching(cands, guesses, slots, depth, s, guesses.len()) {
            Some(i) => Some((guesses[i as int], s)),
            None => None,
        },
    }
}

/// What a lookahead needs: candidates, all codes with the same, non-zero
/// number of slots.
pub open spec fn lookahead_ready(cands: Seq<Seq<u8>>, guesses: Seq<Seq<u8>>) -> bool {
    &&& cands.len() >= 1
    &&& 1 <= cands[0].len() <= 255
    &&& all_len(cands, cands[0].len())
    &&& all_len(guesses, cands[0].len())
}

fn lookahead_search(
    candidates: &[Vec<u8>],
    guesses: &[Vec<u8>],
    depth_cap: usize,
    cancel: Option<&std::sync::atomic::AtomicBool>,
) -> (r: Option<Option<(Vec<u8>, usize)>>)
    requires
        lookahead_ready(candidates@.map_values(|c: Vec<u8>| c@), guesses@.map_values(|c: Vec<u8>| c@)),
    ensures
        r matches Some(v) ==> match lookahead_spec(
            candidates@.map_values(|c: Vec<u8>| c@),
            guesses@.map_values(|c: Vec<u8>| c@),
            depth_cap as nat,
        ) {
            None => v is None,
            Some((g, s)) => v matches Some((vg, vs)) && vg@ == g && vs == s,
        },
        cancel is None ==> r is Some,
{
    if stop_requested(cancel) {
        return None;
    }
    let cands = copy_codes(candidates);
    let gs = copy_codes(guesses);
    let ghost cv = cands.deep_view();
    let ghost gv = gs.deep_view();
    assert(cv[0] == cands@[0]@);
    let slots = cands[0].len();
    let mut memo: KeyMap<Option<usize>> = KeyMap::new();
    assert(memo_ok(memo.view(), gv, slots as nat));
    let mut totals: Vec<Option<usize>> = Vec::new();
    let mut i: usize = 0;
    while i < gs.len()
        invariant
            cv == cands.deep_view(),
            gv == gs.deep_view(),
            slots == cv[0].len(),
            search_ready(cv, gv, slots as nat),
                memo.wf(),
            memo_ok(memo.view(), gv, slots as nat),
            i <= gs@.len(),
            totals@.len() == i,
            forall|q: int| 0 <= q < i ==> same_answer(#[trigger] totals@[q], guess_worst(gv[q], cv, gv, slots as nat, depth_cap as nat)),
        decreases gs@.len() - i,
    {
        let g = &gs[i];
        assert(gv[i as int] == g@);
        match search_worst(g, &cands, &gs, slots, depth_cap, &mut memo, cancel) {
            None => {
                return None;
            },
            Some(v) => {
                totals.push(v);
            },
        }
        i += 1;
    }
    if stop_requested(cancel) {
        return None;
    }
    assert forall|q: int| 0 <= q < totals@.len() implies (#[trigger] totals@[q] matches Some(w) ==> w < depth_cap) by {
        lemma_worst_bound(gv[q], cv, gv, slots as nat, depth_cap as nat, slot_count(slots as nat));
    }
    let mut best: Option<usize> = None;
    let mut k: usize = 0;
    while k < totals.len()
        invariant
            best matches Some(b) ==> b >= 1,
            totals@.len() == gv.len(),
            forall|q: int| 0 <= q < totals@.len() ==> same_answer(#[trigger] totals@[q], guess_worst(gv[q], cv, gv, slots as nat, depth_cap as nat)),
            k <= totals@.len(),
            same_answer(best, root_best(cv, gv, slots as nat, depth_cap as nat, k as nat)),
            forall|q: int| 0 <= q < totals@.len() ==> (#[trigger] totals@[q] matches Some(w) ==> w < depth_cap),
        decreases totals@.len() - k,
    {
        match totals[k] {
            Some(w) => {
                let total = 1 + w;
                best = match best {
                    None => Some(total),
                    Some(b) => if total < b {
                        Some(total)
                    } else {
                        Some(b)
                    },
                };
            },
            None => {},
        }
        k += 1;
    }
    let target = match best {
        None => {
            return Some(None);
        },
        Some(b) => b,
    };
    let mut k: usize = 0;
    while k < totals.len()
        invariant
            totals@.len() == gv.len(),
            forall|q: int| 0 <= q < totals@.len() ==> same_answer(#[trigger] totals@[q], guess_worst(gv[q], cv, gv, slots as nat, depth_cap as nat)),
            k <= totals@.len(),
            first_reaching(cv, gv, slots as nat, depth_cap as nat, target as nat, k as nat) is None,
            target >= 1,
            gv == gs.deep_view(),
            gs@.len() == gv.len(),
            root_best(cv, gv, slots as nat, depth_cap as nat, gv.len()) == Some(target as nat),
            cv == candidates@.map_values(|c: Vec<u8>| c@),
            gv == guesses@.map_values(|c: Vec<u8>| c@),
            slots == cv[0].len(),
        decreases totals@.len() - k,
    {
        let hit = match totals[k] {
            Some(w) => w == target - 1,
            None => false,
        };
        if hit {
            assert(first_reaching(cv, gv, slots as nat, depth_cap as nat, target as nat, (k + 1) as nat) == Some(k as nat));
            proof {
                lemma_first_reaching_stays(cv, gv, slots as nat, depth_cap as nat, target as nat, (k + 1) as nat, gv.len());
            }
            let chosen = copy_code(gs[k].as_slice());
            assert(gv[k as int] == gs@[k as int]@);
            return Some(Some((chosen, target)));
        }
        k += 1;
    }
    Some(None)
}

proof fn lemma_first_reaching_stays(
    cands: Seq<Seq<u8>>,
    guesses: Seq<Seq<u8>>,
    slots: nat,
    depth: nat,
    s: nat,
    j: nat,
    k: nat,
)
    requires
        j <= k,
        first_reaching(cands, guesses, slots, depth, s, j) is Some,
    ensures
        first_reaching(cands, guesses, slots, depth, s, k) == first_reaching(cands, guesses, slots, depth, s, j),
    decreases k,
{
    if k > j {
        lemma_first_reaching_stays(cands, guesses, slots, depth, s, j, (k - 1) as nat);
    }
}

/// Minimax lookahead: the first guess of `guesses` that guarantees the
/// fewest submissions for `candidates` within `depth_cap` submissions (this
/// guess and the final submission included), with that number; `None` when
/// no guess guarantees it.
pub fn lookahead_best(candidates: &[Vec<u8>], guesses: &[Vec<u8>], depth_cap: usize) -> (r: Option<(Vec<u8>, usize)>)
    requires
        lookahead_ready(candidates@.map_values(|c: Vec<u8>| c@), guesses@.map_values(|c: Vec<u8>| c@)),
    ensures
        match lookahead_spec(
            candidates@.map_values(|c: Vec<u8>| c@),
            guesses@.map_values(|c: Vec<u8>| c@),
            depth_cap as nat,
        ) {
            None => r is None,
            Some((g, s)) => r matches Some((rg, rs)) && rg@ == g && rs == s,
        },
{
    match lookahead_search(candidates, guesses, depth_cap, None) {
        Some(v) => v,
        None => None,
    }
}

/// The same search, which gives up with `None` once `cancelled` is set.
/// Whatever it returns otherwise is what `lookahead_best` returns.
pub fn lookahead_best_cancellable(
    candidates: &[Vec<u8>],
    guesses: &[Vec<u8>],
    depth_cap: usize,
    cancelled: &std::sync::atomic::AtomicBool,
) -> (r: Option<(Vec<u8>, usize)>)
    requires
        lookahead_ready(candidates@.map_values(|c: Vec<u8>| c@), guesses@.map_values(|c: Vec<u8>| c@)),
    ensures
        r matches Some((rg, rs)) ==> lookahead_spec(
            candidates@.map_values(|c: Vec<u8>| c@),
            guesses@.map_values(|c: Vec<u8>| c@),
            depth_cap as nat,
        ) == Some((rg@, rs as nat)),
{
    match lookahead_search(candidates, guesses, depth_cap, Some(cancelled)) {
        Some(v) => v,
        None => None,
    }
}


/// How many of `candidates` give each feedback number against `guess`,
/// in feedback-number order (`exact * (slots + 1) + partial`, where `slots`
/// is the length of the codes).
pub fn feedback_counts(guess: &[u8], candidates: &[Vec<u8>]) -> (counts: Vec<usize>)
    requires
        guess@.len() <= 255,
        all_len(candidates@.map_values(|c: Vec<u8>| c@), guess@.len()),
    ensures
        counts@.len() == slot_count(guess@.len()),
        forall|f: int| 0 <= f < counts@.len() ==> #[trigger] counts@[f] == bucket_of(
            candidates@.map_values(|c: Vec<u8>| c@),
            guess@,
            guess@.len(),
            f,
        ).len(),
{
    let cands = copy_codes(candidates);
    let g = copy_code(guess);
    let slots = g.len();
    let buckets = split_buckets(&g, &cands, slots);
    let mut counts: Vec<usize> = Vec::new();
    let mut f: usize = 0;
    while f < buckets.len()
        invariant
            f <= buckets@.len(),
            counts@.len() == f,
            forall|q: int| 0 <= q < f ==> #[trigger] counts@[q] == buckets@[q]@.len(),
        decreases buckets@.len() - f,
    {
        counts.push(buckets[f].len());
        f += 1;
    }
    proof {
        assert forall|q: int| 0 <= q < counts@.len() implies #[trigger] counts@[q] == bucket_of(
            candidates@.map_values(|c: Vec<u8>| c@),
            guess@,
            guess@.len(),
            q,
        ).len() by {
            assert(buckets@[q].deep_view().len() == buckets@[q]@.len());
        }
    }
    counts
}


/// Spaces up to this size are searched whole by the expected-information
/// search; larger ones are sampled.
pub const FULL_SPACE_LIMIT: usize = 20000;

/// Number of guesses in a sample.
pub const SAMPLE_SIZE: usize = 2048;

/// Codes of `k` slots over `n` colours without a repeated colour.
pub open spec fn falling(n: nat, k: nat) -> nat
    decreases k,
{
    if k == 0 {
        1
    } else {
        falling(n, (k - 1) as nat) * (if n >= k {
            (n - (k - 1)) as nat
        } else {
            0
        })
    }
}

/// Number of codes the rules allow.
pub open spec fn possible_guesses_spec(settings: Settings) -> nat {
    if settings.repeats {
        power(settings.colors as nat, settings.slots as nat)
    } else {
        falling(settings.colors as nat, settings.slots as nat)
    }
}

proof fn lemma_falling_bound(n: nat, k: nat)
    requires
        n <= 8,
    ensures
        falling(n, k) <= power(8, k),
    decreases k,
{
    if k > 0 {
        lemma_falling_bound(n, (k - 1) as nat);
        let f = falling(n, (k - 1) as nat);
        let m: nat = if n >= k {
            (n - (k - 1)) as nat
        } else {
            0
        };
        assert(f * m <= power(8, (k - 1) as nat) * 8) by (nonlinear_arith)
            requires
                f <= power(8, (k - 1) as nat),
                m <= 8,
        ;
    }
}

/// Number of codes the rules allow.
pub fn possible_guesses(settings: &Settings) -> (n: usize)
    requires
        enumerable(*settings),
    ensures
        n == possible_guesses_spec(*settings),
{
    let mut n: usize = 1;
    let mut k: usize = 0;
    proof {
        lemma_space_size_bound(8, 6);
    }
    while k < settings.slots
        invariant
            enumerable(*settings),
            k <= settings.slots,
            n == (if settings.repeats {
                power(settings.colors as nat, k as nat)
            } else {
                falling(settings.colors as nat, k as nat)
            }),
            power(8, 6) <= 262144,
        decreases settings.slots - k,
    {
        proof {
            lemma_space_size_bound(settings.colors as nat, (k + 1) as nat);
            lemma_falling_bound(settings.colors as nat, (k + 1) as nat);
            crate::solver::lemma_power_exp_mono(8, (k + 1) as nat, 6);
        }
        if settings.repeats {
            proof {
                let c = settings.colors as nat;
                assert(power(c, (k + 1) as nat) == c * power(c, k as nat));
                assert(n * c == power(c, (k + 1) as nat)) by (nonlinear_arith)
                    requires
                        n == power(c, k as nat),
                        power(c, (k + 1) as nat) == c * power(c, k as nat),
                ;
            }
            n = n * settings.colors;
        } else if settings.colors >= k + 1 {
            n = n * (settings.colors - k);
        } else {
            n = 0;
        }
        k += 1;
    }
    n
}

/// Whether the search behind a guess recommendation sampled guesses or
/// candidates: a guess (not a direct answer) among more than two candidates,
/// when either the rules allow more codes than `FULL_SPACE_LIMIT` or there
/// are more candidates than that.
pub fn search_is_sampled(settings: &Settings, candidate_count: usize, is_guess: bool) -> (b: bool)
    requires
        enumerable(*settings),
    ensures
        b == (is_guess && candidate_count > 2 && (possible_guesses_spec(*settings) > FULL_SPACE_LIMIT
            || candidate_count > FULL_SPACE_LIMIT)),
{
    is_guess && candidate_count > 2 && (possible_guesses(settings) > FULL_SPACE_LIMIT || candidate_count > FULL_SPACE_LIMIT)
}


/// The state the sample generator starts from.
pub const SAMPLE_SEED: u64 = 0x9E37_79B9_7F4A_7C15;

/// The factor that mixes a generator state into a draw.
pub const SAMPLE_MIX: u64 = 0x2545_F491_4F6C_DD1D;

/// One xorshift step of the sample generator.
pub open spec fn xorshift(r: u64) -> u64 {
    let a = r ^ (r >> 12u64);
    let b = a ^ (a << 25u64);
    b ^ (b >> 27u64)
}

/// The generator's state after `k` steps.
pub open spec fn sample_state(k: nat) -> u64
    decreases k,
{
    if k == 0 {
        SAMPLE_SEED
    } else {
        xorshift(sample_state((k - 1) as nat))
    }
}

/// The index among `len` codes that draw `k` (counted from 0) picks.
pub open spec fn sample_draw(k: nat, len: nat) -> nat {
    ((((sample_state(k + 1) as nat * SAMPLE_MIX as nat) % 0x1_0000_0000_0000_0000) as u64) as usize) as nat % len
}

/// The indices that the first `k` draws pick.
pub open spec fn sample_drawn(k: nat, len: nat) -> Set<nat>
    decreases k,
{
    if k == 0 {
        Set::empty()
    } else {
        sample_drawn((k - 1) as nat, len).insert(sample_draw((k - 1) as nat, len))
    }
}

/// The codes among the first `i` of `space` whose index is in `picked`, in
/// order.
pub open spec fn codes_at(space: Seq<Seq<u8>>, picked: Set<nat>, i: nat) -> Seq<Seq<u8>>
    decreases i,
{
    if i == 0 {
        Seq::empty()
    } else if picked.contains((i - 1) as nat) {
        codes_at(space, picked, (i - 1) as nat).push(space[i - 1])
    } else {
        codes_at(space, picked, (i - 1) as nat)
    }
}

proof fn lemma_drawn_finite(k: nat, len: nat)
    ensures
        sample_drawn(k, len).finite(),
    decreases k,
{
    if k > 0 {
        lemma_drawn_finite((k - 1) as nat, len);
    }
}

/// A fixed sample of `n` different codes of `space`, in space order: the
/// codes at the first `n` different indices that the generator draws, or all
/// of `space` where it has no more than `n` codes. The generator gives up
/// after `u64::MAX` draws, far more than any run makes.
pub fn sample_guesses(space: &[Vec<u8>], n: usize) -> (out: Vec<Vec<u8>>)
    ensures
        n >= space@.len() ==> out.deep_view() == space@.map_values(|c: Vec<u8>| c@),
        n < space@.len() ==> exists|k: nat|
            out.deep_view() == codes_at(space@.map_values(|c: Vec<u8>| c@), #[trigger] sample_drawn(k, space@.len()), space@.len())
            && (sample_drawn(k, space@.len()).len() == n || k == u64::MAX) && forall|j: nat|
            j < k ==> #[trigger] sample_drawn(j, space@.len()).len() < n,
{
    let len = space.len();
    if n >= len {
        return copy_codes(space);
    }
    let ghost sv = space@.map_values(|c: Vec<u8>| c@);
    let mut used: Vec<bool> = Vec::new();
    let mut i: usize = 0;
    while i < len
        invariant
            i <= len,
            used@.len() == i,
            forall|q: int| 0 <= q < i ==> !#[trigger] used@[q],
        decreases len - i,
    {
        used.push(false);
        i += 1;
    }
    let mut rng: u64 = SAMPLE_SEED;
    let mut steps: u64 = 0;
    let mut count: usize = 0;
    while count < n && steps < u64::MAX
        invariant
            len == space@.len(),
            n < len,
            used@.len() == len,
            rng == sample_state(steps as nat),
            sample_drawn(steps as nat, len as nat).finite(),
            forall|q: int| 0 <= q < len ==> (#[trigger] used@[q] <==> sample_drawn(steps as nat, len as nat).contains(
                q as nat,
            )),
            count == sample_drawn(steps as nat, len as nat).len(),
            count <= n,
            forall|j: nat| j < steps ==> #[trigger] sample_drawn(j, len as nat).len() < n,
        decreases u64::MAX - steps,
    {
        let ghost before = sample_drawn(steps as nat, len as nat);
        rng = rng ^ (rng >> 12u64);
        rng = rng ^ (rng << 25u64);
        rng = rng ^ (rng >> 27u64);
        assert(rng == sample_state(steps as nat + 1));
        let idx = (rng.wrapping_mul(SAMPLE_MIX) as usize) % len;
        assert(idx as nat == sample_draw(steps as nat, len as nat));
        assert(sample_drawn(steps as nat + 1, len as nat) == before.insert(idx as nat));
        if !used[idx] {
            used.set(idx, true);
            count += 1;
        }
        proof {
            lemma_drawn_finite(steps as nat + 1, len as nat);
        }
        steps += 1;
    }
    let ghost k = steps as nat;
    let ghost picked = sample_drawn(k, len as nat);
    let mut out: Vec<Vec<u8>> = Vec::new();
    let mut i: usize = 0;
    while i < len
        invariant
            i <= len,
            len == space@.len(),
            used@.len() == len,
            sv == space@.map_values(|c: Vec<u8>| c@),
            forall|q: int| 0 <= q < len ==> (#[trigger] used@[q] <==> picked.contains(q as nat)),
            out.deep_view() == codes_at(sv, picked, i as nat),
        decreases len - i,
    {
        if used[i] {
            let c = copy_code(space[i].as_slice());
            assert(c.deep_view() =~= c@);
            assert(sv[i as int] == space@[i as int]@);
            let ghost prev = out.deep_view();
            out.push(c);
            assert(out.deep_view() =~= prev.push(sv[i as int]));
        }
        i += 1;
    }
    assert(out.deep_view() == codes_at(sv, sample_drawn(k, len as nat), len as nat));
    out
}

/// The guesses the expected-information search tries: every code of the
/// rules' space, or the fixed sample of `SAMPLE_SIZE` of them where the space
/// holds more than `FULL_SPACE_LIMIT`.
pub fn guess_space(settings: &Settings) -> (out: Vec<Vec<u8>>)
    requires
        enumerable(*settings),
    ensures
        space_of(*settings).len() <= FULL_SPACE_LIMIT ==> out.deep_view() == space_of(*settings),
        space_of(*settings).len() > FULL_SPACE_LIMIT ==> exists|k: nat|
            out.deep_view() == codes_at(space_of(*settings), #[trigger] sample_drawn(k, space_of(*settings).len()), space_of(
                *settings,
            ).len()) && (sample_drawn(k, space_of(*settings).len()).len() == SAMPLE_SIZE || k == u64::MAX) && forall|j: nat|
                j < k ==> #[trigger] sample_drawn(j, space_of(*settings).len()).len() < SAMPLE_SIZE,
{
    let space = enumerate_space(settings);
    if space.len() <= FULL_SPACE_LIMIT {
        space
    } else {
        assert forall|i: int| 0 <= i < space@.len() implies #[trigger] space.deep_view()[i] == space@[i]@ by {
            assert(space@[i].deep_view() =~= space@[i]@);
        }
        assert(space@.map_values(|c: Vec<u8>| c@) =~= space.deep_view());
        sample_guesses(space.as_slice(), SAMPLE_SIZE)
    }
}


/// The feedback number of two codes of `slots` slots is one of the
/// `slot_count(slots)` numbers, and it is the one that ends the game exactly
/// when the guess is the candidate.
pub proof fn lemma_fb_slot_range(g: Seq<u8>, c: Seq<u8>, slots: nat)
    requires
        g.len() == slots,
        c.len() == slots,
    ensures
        0 <= fb_slot(g, c, slots) < slot_count(slots),
        (fb_slot(g, c, slots) == terminal_slot(slots)) == (g == c),
{
    lemma_feedback_bounds(g, c);
    lemma_all_exact_iff_equal(g, c);
    let e = exact_matches(g, c);
    let o = overlap(g, c);
    assert(feedback(g, c) == (e as int, o - e));
    assert(e * (slots + 1) + (o - e) <= e * slots + slots) by (nonlinear_arith)
        requires
            o <= slots,
            e <= o,
    ;
    assert(e * slots + slots <= slots * slots + slots) by (nonlinear_arith)
        requires
            e <= slots,
    ;
    assert(0 <= e * (slots + 1) + (o - e)) by (nonlinear_arith)
        requires
            e <= o,
    ;
    assert(slots * slots + slots < slot_count(slots)) by (nonlinear_arith);
    assert(fb_slot(g, c, slots) == e * (slots + 1) + (o - e));
    if g == c {
        lemma_feedback_self(g);
    } else {
        assert(e < slots);
        assert(e * slots + slots < slots * (slots + 1)) by (nonlinear_arith)
            requires
                e < slots,
        ;
    }
}

/// The feedback class of `cands` that holds candidate `i` is not empty, and
/// a non-empty class is the class of one of its candidates.
proof fn lemma_bucket_nonempty(cands: Seq<Seq<u8>>, g: Seq<u8>, slots: nat, x: int)
    ensures
        bucket_of(cands, g, slots, x).len() > 0 <==> exists|i: int| 0 <= i < cands.len() && #[trigger] fb_slot(g, cands[i], slots) == x,
{
    let pred = |c: Seq<u8>| fb_slot(g, c, slots) == x;
    if exists|i: int| 0 <= i < cands.len() && #[trigger] fb_slot(g, cands[i], slots) == x {
        let i = choose|i: int| 0 <= i < cands.len() && #[trigger] fb_slot(g, cands[i], slots) == x;
        cands.lemma_filter_contains(pred, i);
    }
    if bucket_of(cands, g, slots, x).len() > 0 {
        let b = bucket_of(cands, g, slots, x);
        cands.lemma_filter_pred(pred, 0);
        assert(b.contains(b[0]));
        cands.lemma_filter_contains_rev(pred, b[0]);
        let i = choose|i: int| 0 <= i < cands.len() && cands[i] == b[0];
        assert(fb_slot(g, cands[i], slots) == x);
    }
}

/// Candidate `i` still needs a submission after `g` and its feedback number
/// is below `f`.
pub open spec fn open_below(g: Seq<u8>, cands: Seq<Seq<u8>>, slots: nat, f: int, i: int) -> bool {
    &&& 0 <= i < cands.len()
    &&& fb_slot(g, cands[i], slots) < f
    &&& fb_slot(g, cands[i], slots) != terminal_slot(slots)
}

/// The guarantee for the feedback class of candidate `i` after guess `g`.
pub open spec fn class_steps(g: Seq<u8>, cands: Seq<Seq<u8>>, guesses: Seq<Seq<u8>>, slots: nat, budget: nat, i: int) -> Option<nat> {
    steps_spec(bucket_of(cands, g, slots, fb_slot(g, cands[i], slots)), guesses, slots, budget)
}

proof fn lemma_worst_cases(g: Seq<u8>, cands: Seq<Seq<u8>>, guesses: Seq<Seq<u8>>, slots: nat, budget: nat, f: nat)
    requires
        budget > 0,
        g.len() == slots,
        all_len(cands, slots),
    ensures
        (worst_from(g, cands, guesses, slots, budget, f) is Some) <==> forall|i: int|
            #[trigger] open_below(g, cands, slots, f as int, i) ==> class_steps(g, cands, guesses, slots, (budget - 1) as nat, i) is Some,
        worst_from(g, cands, guesses, slots, budget, f) matches Some(w) ==> (forall|i: int|
            #[trigger] open_below(g, cands, slots, f as int, i) ==> class_steps(g, cands, guesses, slots, (budget - 1) as nat, i)->0 <= w)
            && (w == 0 || exists|i: int| #[trigger] open_below(g, cands, slots, f as int, i) && class_steps(
            g,
            cands,
            guesses,
            slots,
            (budget - 1) as nat,
            i,
        ) == Some(w)),
    decreases f,
{
    let b1 = (budget - 1) as nat;
    if f == 0 {
        assert forall|i: int| #[trigger] open_below(g, cands, slots, f as int, i) implies false by {
            assert(cands[i].len() == slots);
            lemma_fb_slot_range(g, cands[i], slots);
        }
    } else {
        let x = f - 1;
        lemma_worst_cases(g, cands, guesses, slots, budget, (f - 1) as nat);
        lemma_bucket_nonempty(cands, g, slots, x);
        let b = bucket_of(cands, g, slots, x);
        assert forall|i: int| #[trigger] open_below(g, cands, slots, f as int, i) && fb_slot(g, cands[i], slots) == x implies
            class_steps(g, cands, guesses, slots, b1, i) == steps_spec(b, guesses, slots, b1) by {}
        assert forall|i: int| #[trigger] open_below(g, cands, slots, f as int, i) implies open_below(g, cands, slots, x, i)
            || fb_slot(g, cands[i], slots) == x by {}
        assert forall|i: int| #[trigger] open_below(g, cands, slots, x, i) implies open_below(g, cands, slots, f as int, i) by {}
        match worst_from(g, cands, guesses, slots, budget, (f - 1) as nat) {
            None => {
                let i = choose|i: int| #[trigger] open_below(g, cands, slots, x, i) && !(class_steps(g, cands, guesses, slots, b1, i) is Some);
                assert(open_below(g, cands, slots, f as int, i));
            },
            Some(w) => {
                if x == terminal_slot(slots) || b.len() == 0 {
                    assert forall|i: int| #[trigger] open_below(g, cands, slots, f as int, i) implies open_below(g, cands, slots, x, i) by {
                        if fb_slot(g, cands[i], slots) == x {
                            assert(b.len() > 0);
                        }
                    }
                    if w != 0 {
                        let i = choose|i: int| #[trigger] open_below(g, cands, slots, x, i) && class_steps(g, cands, guesses, slots, b1, i) == Some(w);
                        assert(open_below(g, cands, slots, f as int, i));
                    }
                } else {
                    let i0 = choose|i: int| 0 <= i < cands.len() && #[trigger] fb_slot(g, cands[i], slots) == x;
                    assert(open_below(g, cands, slots, f as int, i0));
                    match steps_spec(b, guesses, slots, b1) {
                        None => {},
                        Some(v) => {
                            if !(v > w) && w != 0 {
                                let i = choose|i: int| #[trigger] open_below(g, cands, slots, x, i) && class_steps(g, cands, guesses, slots, b1, i) == Some(w);
                                assert(open_below(g, cands, slots, f as int, i));
                            }
                        },
                    }
                }
            },
        }
    }
}

/// What guessing `g` guarantees within `depth` submissions: after `g`, the
/// most submissions that the feedback class of any candidate other than `g`
/// still needs; none if some such class cannot be finished within the rest
/// of the budget, or if there is no budget.
pub proof fn lemma_guess_worst_cases(g: Seq<u8>, cands: Seq<Seq<u8>>, guesses: Seq<Seq<u8>>, slots: nat, depth: nat)
    requires
        g.len() == slots,
        all_len(cands, slots),
    ensures
        depth == 0 ==> guess_worst(g, cands, guesses, slots, depth) is None,
        depth > 0 ==> ((guess_worst(g, cands, guesses, slots, depth) is Some) <==> forall|i: int|
            0 <= i < cands.len() && #[trigger] cands[i] != g ==> class_steps(g, cands, guesses, slots, (depth - 1) as nat, i) is Some),
        guess_worst(g, cands, guesses, slots, depth) matches Some(w) ==> (forall|i: int|
            0 <= i < cands.len() && #[trigger] cands[i] != g ==> class_steps(g, cands, guesses, slots, (depth - 1) as nat, i)->0 <= w)
            && (w == 0 || exists|i: int| 0 <= i < cands.len() && #[trigger] cands[i] != g && class_steps(
            g,
            cands,
            guesses,
            slots,
            (depth - 1) as nat,
            i,
        ) == Some(w)),
{
    if depth > 0 {
        let top = slot_count(slots) as int;
        let d1 = (depth - 1) as nat;
        lemma_worst_cases(g, cands, guesses, slots, depth, slot_count(slots));
        assert forall|i: int| 0 <= i < cands.len() && #[trigger] cands[i] != g implies open_below(g, cands, slots, top, i) by {
            assert(cands[i].len() == slots);
            lemma_fb_slot_range(g, cands[i], slots);
        }
        assert forall|i: int| #[trigger] open_below(g, cands, slots, top, i) implies 0 <= i < cands.len() && cands[i] != g by {
            assert(cands[i].len() == slots);
            lemma_fb_slot_range(g, cands[i], slots);
        }
        if guess_worst(g, cands, guesses, slots, depth) is Some {
            let w = guess_worst(g, cands, guesses, slots, depth)->0;
            if w != 0 {
                let i = choose|i: int| #[trigger] open_below(g, cands, slots, top, i) && class_steps(g, cands, guesses, slots, d1, i) == Some(w);
                assert(cands[i] != g);
            }
        } else {
            let i = choose|i: int| #[trigger] open_below(g, cands, slots, top, i) && !(class_steps(g, cands, guesses, slots, d1, i) is Some);
            assert(cands[i] != g);
        }
    }
}

/// With a candidate other than `g` left, guessing `g` leaves at least one
/// more submission.
proof fn lemma_worst_positive(g: Seq<u8>, cands: Seq<Seq<u8>>, guesses: Seq<Seq<u8>>, slots: nat, budget: nat, i: int)
    requires
        g.len() == slots,
        all_len(cands, slots),
        0 <= i < cands.len(),
        cands[i] != g,
    ensures
        guess_worst(g, cands, guesses, slots, budget) matches Some(w) ==> w >= 1,
{
    lemma_guess_worst_cases(g, cands, guesses, slots, budget);
    if guess_worst(g, cands, guesses, slots, budget) is Some {
        let b = bucket_of(cands, g, slots, fb_slot(g, cands[i], slots));
        lemma_steps_bound(b, guesses, slots, (budget - 1) as nat);
    }
}

proof fn lemma_best_least(cands: Seq<Seq<u8>>, guesses: Seq<Seq<u8>>, slots: nat, budget: nat, k: nat)
    requires
        budget > 0,
        cands.len() >= 2,
        cands.no_duplicates(),
        all_len(cands, slots),
        all_len(guesses, slots),
        k <= guesses.len(),
    ensures
        forall|i: int| 0 <= i < k ==> (guess_worst(#[trigger] guesses[i], cands, guesses, slots, budget) matches Some(w)
            ==> best_from(cands, guesses, slots, budget, k) matches Some(s) && s <= 1 + w),
        best_from(cands, guesses, slots, budget, k) matches Some(s) ==> exists|i: int| 0 <= i < k && (guess_worst(
            #[trigger] guesses[i],
            cands,
            guesses,
            slots,
            budget,
        ) matches Some(w) && 1 + w == s),
    decreases k,
{
    if k > 0 {
        lemma_best_least(cands, guesses, slots, budget, (k - 1) as nat);
        let g = guesses[k - 1];
        assert(g.len() == slots);
        if cands[0] != g {
            lemma_worst_positive(g, cands, guesses, slots, budget, 0);
        } else {
            lemma_worst_positive(g, cands, guesses, slots, budget, 1);
        }
        let prev = best_from(cands, guesses, slots, budget, (k - 1) as nat);
        if prev != Some(2nat) {
            if let Some(w) = guess_worst(g, cands, guesses, slots, budget) {
                assert(guess_worst(guesses[k - 1], cands, guesses, slots, budget) == Some(w));
            }
        }
    }
}

/// For two or more different candidates the guarantee is the least that any
/// guess gives: one for the guess plus the most that its worst feedback
/// class still needs. (The scan over guesses may stop at a guarantee of two,
/// as no guess does better for two candidates.)
pub proof fn lemma_steps_least(cands: Seq<Seq<u8>>, guesses: Seq<Seq<u8>>, slots: nat, budget: nat)
    requires
        budget > 0,
        cands.len() >= 2,
        cands.no_duplicates(),
        all_len(cands, slots),
        all_len(guesses, slots),
    ensures
        forall|i: int| 0 <= i < guesses.len() ==> (guess_worst(#[trigger] guesses[i], cands, guesses, slots, budget) matches Some(w)
            ==> steps_spec(cands, guesses, slots, budget) matches Some(s) && s <= 1 + w),
        steps_spec(cands, guesses, slots, budget) matches Some(s) ==> exists|i: int| 0 <= i < guesses.len() && (guess_worst(
            #[trigger] guesses[i],
            cands,
            guesses,
            slots,
            budget,
        ) matches Some(w) && 1 + w == s),
{
    lemma_best_least(cands, guesses, slots, budget, guesses.len());
}

/// A single candidate is submitted at once: one submission, within any
/// budget of at least one.
pub proof fn lemma_steps_single(cands: Seq<Seq<u8>>, guesses: Seq<Seq<u8>>, slots: nat, budget: nat)
    requires
        cands.len() == 1,
    ensures
        steps_spec(cands, guesses, slots, budget) == (if budget == 0 {
            None
        } else {
            Some(1nat)
        }),
{
}

proof fn lemma_root_least(cands: Seq<Seq<u8>>, guesses: Seq<Seq<u8>>, slots: nat, depth: nat, k: nat)
    requires
        k <= guesses.len(),
    ensures
        forall|i: int| 0 <= i < k ==> (guess_worst(#[trigger] guesses[i], cands, guesses, slots, depth) matches Some(w)
            ==> root_best(cands, guesses, slots, depth, k) matches Some(s) && s <= 1 + w),
        root_best(cands, guesses, slots, depth, k) matches Some(s) ==> exists|i: int| 0 <= i < k && (guess_worst(
            #[trigger] guesses[i],
            cands,
            guesses,
            slots,
            depth,
        ) matches Some(w) && 1 + w == s),
    decreases k,
{
    if k > 0 {
        lemma_root_least(cands, guesses, slots, depth, (k - 1) as nat);
        if let Some(w) = guess_worst(guesses[k - 1], cands, guesses, slots, depth) {
            assert(guess_worst(guesses[k - 1], cands, guesses, slots, depth) == Some(w));
        }
    }
}

proof fn lemma_first_reaching_least(cands: Seq<Seq<u8>>, guesses: Seq<Seq<u8>>, slots: nat, depth: nat, s: nat, k: nat)
    requires
        k <= guesses.len(),
    ensures
        first_reaching(cands, guesses, slots, depth, s, k) matches Some(i) ==> i < k && (guess_worst(
            guesses[i as int],
            cands,
            guesses,
            slots,
            depth,
        ) matches Some(w) && 1 + w == s) && forall|j: int| 0 <= j < i ==> !(guess_worst(
            #[trigger] guesses[j],
            cands,
            guesses,
            slots,
            depth,
        ) matches Some(w) && 1 + w == s),
        first_reaching(cands, guesses, slots, depth, s, k) is None ==> forall|j: int| 0 <= j < k ==> !(guess_worst(
            #[trigger] guesses[j],
            cands,
            guesses,
            slots,
            depth,
        ) matches Some(w) && 1 + w == s),
    decreases k,
{
    if k > 0 {
        lemma_first_reaching_least(cands, guesses, slots, depth, s, (k - 1) as nat);
    }
}

/// The minimax lookahead answers a guess that guarantees the fewest
/// submissions any guess can guarantee within `depth` (one for the guess
/// plus the most its worst feedback class still needs), the first such
/// guess in order; it answers nothing exactly when no guess guarantees
/// finishing within `depth`.
pub proof fn lemma_lookahead_least(cands: Seq<Seq<u8>>, guesses: Seq<Seq<u8>>, depth: nat)
    requires
        lookahead_ready(cands, guesses),
    ensures
        lookahead_spec(cands, guesses, depth) matches Some((g, s)) ==> exists|i: int| 0 <= i < guesses.len() && guesses[i] == g
            && (guess_worst(g, cands, guesses, cands[0].len(), depth) matches Some(w) && 1 + w == s) && forall|j: int|
            0 <= j < i ==> !(guess_worst(#[trigger] guesses[j], cands, guesses, cands[0].len(), depth) matches Some(w) && 1
            + w == s),
        lookahead_spec(cands, guesses, depth) matches Some((g, s)) ==> forall|j: int| 0 <= j < guesses.len() ==> (guess_worst(
            #[trigger] guesses[j],
            cands,
            guesses,
            cands[0].len(),
            depth,
        ) matches Some(w) ==> s <= 1 + w),
        lookahead_spec(cands, guesses, depth) is None <==> forall|j: int| 0 <= j < guesses.len() ==> guess_worst(
            #[trigger] guesses[j],
            cands,
            guesses,
            cands[0].len(),
            depth,
        ) is None,
{
    let slots = cands[0].len();
    let n = guesses.len();
    lemma_root_least(cands, guesses, slots, depth, n);
    match root_best(cands, guesses, slots, depth, n) {
        None => {},
        Some(s) => {
            lemma_first_reaching_least(cands, guesses, slots, depth, s, n);
            match first_reaching(cands, guesses, slots, depth, s, n) {
                None => {
                    let i = choose|i: int| 0 <= i < n && (guess_worst(#[trigger] guesses[i], cands, guesses, slots, depth) matches Some(w) && 1 + w == s);
                    assert(false);
                },
                Some(i) => {
                    assert(lookahead_spec(cands, guesses, depth) == Some((guesses[i as int], s)));
                },
            }
        },
    }
}

/// A single candidate that is among the guesses is submitted at once: the
/// lookahead answers it with a guarantee of one submission.
pub proof fn lemma_lookahead_single(cands: Seq<Seq<u8>>, guesses: Seq<Seq<u8>>, depth: nat)
    requires
        lookahead_ready(cands, guesses),
        cands.len() == 1,
        guesses.contains(cands[0]),
        depth >= 1,
    ensures
        lookahead_spec(cands, guesses, depth) == Some((cands[0], 1nat)),
{
    let c = cands[0];
    let slots = c.len();
    let ic = choose|i: int| 0 <= i < guesses.len() && guesses[i] == c;
    lemma_guess_worst_cases(c, cands, guesses, slots, depth);
    assert(guess_worst(c, cands, guesses, slots, depth) == Some(0nat));
    assert(guess_worst(guesses[ic], cands, guesses, slots, depth) == Some(0nat));
    lemma_lookahead_least(cands, guesses, depth);
    let (g, s) = lookahead_spec(cands, guesses, depth)->0;
    let i = choose|i: int| 0 <= i < guesses.len() && guesses[i] == g && (guess_worst(g, cands, guesses, slots, depth) matches Some(w)
        && 1 + w == s) && forall|j: int| 0 <= j < i ==> !(guess_worst(#[trigger] guesses[j], cands, guesses, slots, depth) matches Some(w) && 1 + w == s);
    assert(s <= 1);
    assert(guesses[i].len() == slots);
    if g != c {
        lemma_worst_positive(g, cands, guesses, slots, depth, 0);
    }
}

/// Codes of `slots` slots get the same feedback number against `g` exactly
/// when they get the same feedback.
proof fn lemma_fb_slot_same(g: Seq<u8>, a: Seq<u8>, b: Seq<u8>, slots: nat)
    requires
        g.len() == slots,
        a.len() == slots,
        b.len() == slots,
    ensures
        (fb_slot(g, a, slots) == fb_slot(g, b, slots)) == (feedback(g, a) == feedback(g, b)),
{
    lemma_feedback_bounds(g, a);
    lemma_feedback_bounds(g, b);
    let e1 = exact_matches(g, a) as int;
    let p1 = overlap(g, a) - exact_matches(g, a);
    let e2 = exact_matches(g, b) as int;
    let p2 = overlap(g, b) - exact_matches(g, b);
    let m = slots + 1;
    assert(0 <= p1 < m && 0 <= p2 < m);
    if e1 < e2 {
        assert(e1 * m + p1 < e2 * m + p2) by (nonlinear_arith)
            requires
                e1 < e2,
                0 <= p1 < m,
                0 <= p2,
        ;
    } else if e2 < e1 {
        assert(e2 * m + p2 < e1 * m + p1) by (nonlinear_arith)
            requires
                e2 < e1,
                0 <= p2 < m,
                0 <= p1,
        ;
    }
}

/// The feedback class of candidate `i` after guess `g` holds exactly the
/// candidates that get the same feedback against `g` as candidate `i`.
pub proof fn lemma_class_members(g: Seq<u8>, cands: Seq<Seq<u8>>, slots: nat, i: int, x: Seq<u8>)
    requires
        g.len() == slots,
        all_len(cands, slots),
        0 <= i < cands.len(),
    ensures
        bucket_of(cands, g, slots, fb_slot(g, cands[i], slots)).contains(x) <==> cands.contains(x) && feedback(g, x)
            == feedback(g, cands[i]),
{
    let f = fb_slot(g, cands[i], slots);
    let pred = |c: Seq<u8>| fb_slot(g, c, slots) == f;
    if bucket_of(cands, g, slots, f).contains(x) {
        cands.lemma_filter_contains_rev(pred, x);
        let b = bucket_of(cands, g, slots, f);
        let q = choose|q: int| 0 <= q < b.len() && b[q] == x;
        cands.lemma_filter_pred(pred, q);
        let j = choose|j: int| 0 <= j < cands.len() && cands[j] == x;
        assert(x.len() == slots);
        lemma_fb_slot_same(g, x, cands[i], slots);
    }
    if cands.contains(x) && feedback(g, x) == feedback(g, cands[i]) {
        let j = choose|j: int| 0 <= j < cands.len() && cands[j] == x;
        assert(x.len() == slots);
        lemma_fb_slot_same(g, x, cands[i], slots);
        cands.lemma_filter_contains(pred, j);
    }
}

} // verus!
