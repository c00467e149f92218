//! Mastermind feedback: the standard multiset counting rule.
//!
//! exact   = number of positions where guess and candidate agree
//! overlap = sum over colours of min(count in guess, count in candidate)
//! partial = overlap - exact
use vstd::prelude::*;

verus! {

/// Number of occurrences of `col` in `s`.
pub open spec fn count_color(s: Seq<u8>, col: int) -> nat
    decreases s.len(),
{
    if s.len() == 0 {
        0
    } else {
        count_color(s.drop_last(), col) + if s.last() == col {
            1nat
        } else {
            0nat
        }
    }
}

/// Number of positions at which `g` and `c` hold the same colour.
pub open spec fn exact_matches(g: Seq<u8>, c: Seq<u8>) -> nat
    decreases g.len(),
{
    if g.len() == 0 {
        0
    } else {
        exact_matches(g.drop_last(), c.drop_last()) + if g.last() == c.last() {
            1nat
        } else {
            0nat
        }
    }
}

pub open spec fn min_nat(a: nat, b: nat) -> nat {
    if a <= b {
        a
    } else {
        b
    }
}

/// Sum over the colours `0..k` of the smaller of the two colour counts.
pub open spec fn overlap_upto(g: Seq<u8>, c: Seq<u8>, k: nat) -> nat
    decreases k,
{
    if k == 0 {
        0
    } else {
        overlap_upto(g, c, (k - 1) as nat) + min_nat(
            count_color(g, k - 1),
            count_color(c, k - 1),
        )
    }
}

/// Colour overlap of two codes: the multiset intersection size.
pub open spec fn overlap(g: Seq<u8>, c: Seq<u8>) -> nat {
    overlap_upto(g, c, 256)
}

/// The feedback `(exact, partial)` that `guess` receives against `candidate`.
pub open spec fn feedback(g: Seq<u8>, c: Seq<u8>) -> (int, int) {
    (exact_matches(g, c) as int, overlap(g, c) - exact_matches(g, c))
}

/// Same as `overlap_upto`, but only colours that occur in `p` contribute.
pub open spec fn overlap_within(g: Seq<u8>, c: Seq<u8>, k: nat, p: Seq<u8>) -> nat
    decreases k,
{
    if k == 0 {
        0
    } else {
        overlap_within(g, c, (k - 1) as nat, p) + if p.contains((k - 1) as u8) {
            min_nat(count_color(g, k - 1), count_color(c, k - 1))
        } else {
            0nat
        }
    }
}

/// Number of elements of `s` below `k`.
pub open spec fn count_below(s: Seq<u8>, k: nat) -> nat
    decreases k,
{
    if k == 0 {
        0
    } else {
        count_below(s, (k - 1) as nat) + count_color(s, k - 1)
    }
}

proof fn lemma_count_absent(s: Seq<u8>, col: u8)
    requires
        !s.contains(col),
    ensures
        count_color(s, col as int) == 0,
    decreases s.len(),
{
    if s.len() > 0 {
        assert(!s.drop_last().contains(col)) by {
            if s.drop_last().contains(col) {
                let i = choose|i: int| 0 <= i < s.drop_last().len() && s.drop_last()[i] == col;
                assert(s[i] == col);
            }
        }
        lemma_count_absent(s.drop_last(), col);
        assert(s.last() != col) by {
            assert(s[s.len() - 1] == s.last());
        }
    }
}

proof fn lemma_count_present(s: Seq<u8>, col: u8)
    requires
        s.contains(col),
    ensures
        count_color(s, col as int) > 0,
    decreases s.len(),
{
    if s.last() != col {
        assert(s.drop_last().contains(col)) by {
            let i = choose|i: int| 0 <= i < s.len() && s[i] == col;
            assert(i != s.len() - 1);
            assert(s.drop_last()[i] == col);
        }
        lemma_count_present(s.drop_last(), col);
    }
}

proof fn lemma_within_push_new(g: Seq<u8>, c: Seq<u8>, k: nat, p: Seq<u8>, x: u8)
    requires
        !p.contains(x),
        k <= 256,
    ensures
        overlap_within(g, c, k, p.push(x)) == overlap_within(g, c, k, p) + if x < k {
            min_nat(count_color(g, x as int), count_color(c, x as int))
        } else {
            0nat
        },
    decreases k,
{
    if k > 0 {
        lemma_within_push_new(g, c, (k - 1) as nat, p, x);
        let col = (k - 1) as u8;
        assert(p.push(x).contains(col) <==> (p.contains(col) || col == x)) by {
            if p.push(x).contains(col) {
                let i = choose|i: int| 0 <= i < p.push(x).len() && p.push(x)[i] == col;
                if i < p.len() {
                    assert(p[i] == col);
                }
            }
            if p.contains(col) {
                let i = choose|i: int| 0 <= i < p.len() && p[i] == col;
                assert(p.push(x)[i] == col);
            }
            if col == x {
                assert(p.push(x)[p.len() as int] == col);
            }
        }
    }
}

proof fn lemma_within_push_old(g: Seq<u8>, c: Seq<u8>, k: nat, p: Seq<u8>, x: u8)
    requires
        p.contains(x),
        k <= 256,
    ensures
        overlap_within(g, c, k, p.push(x)) == overlap_within(g, c, k, p),
    decreases k,
{
    if k > 0 {
        lemma_within_push_old(g, c, (k - 1) as nat, p, x);
        let col = (k - 1) as u8;
        assert(p.push(x).contains(col) <==> p.contains(col)) by {
            if p.push(x).contains(col) {
                let i = choose|i: int| 0 <= i < p.push(x).len() && p.push(x)[i] == col;
                if i < p.len() {
                    assert(p[i] == col);
                }
            }
            if p.contains(col) {
                let i = choose|i: int| 0 <= i < p.len() && p[i] == col;
                assert(p.push(x)[i] == col);
            }
        }
    }
}

proof fn lemma_within_full(g: Seq<u8>, c: Seq<u8>, k: nat)
    requires
        k <= 256,
    ensures
        overlap_within(g, c, k, g) == overlap_upto(g, c, k),
    decreases k,
{
    if k > 0 {
        lemma_within_full(g, c, (k - 1) as nat);
        let col = (k - 1) as u8;
        if !g.contains(col) {
            lemma_count_absent(g, col);
        }
    }
}

proof fn lemma_count_push(s: Seq<u8>, x: u8, col: int)
    ensures
        count_color(s.push(x), col) == count_color(s, col) + if x == col {
            1nat
        } else {
            0nat
        },
{
    assert(s.push(x).drop_last() =~= s);
}

proof fn lemma_overlap_step(g: Seq<u8>, c: Seq<u8>, a: u8, b: u8, k: nat)
    ensures
        overlap_upto(g.push(a), c.push(b), k) >= overlap_upto(g, c, k) + if a == b && a < k {
            1nat
        } else {
            0nat
        },
    decreases k,
{
    if k > 0 {
        lemma_overlap_step(g, c, a, b, (k - 1) as nat);
        lemma_count_push(g, a, k - 1);
        lemma_count_push(c, b, k - 1);
    }
}

proof fn lemma_overlap_le_count(g: Seq<u8>, c: Seq<u8>, k: nat)
    ensures
        overlap_upto(g, c, k) <= count_below(g, k),
    decreases k,
{
    if k > 0 {
        lemma_overlap_le_count(g, c, (k - 1) as nat);
    }
}

proof fn lemma_count_below_push(s: Seq<u8>, x: u8, k: nat)
    ensures
        count_below(s.push(x), k) == count_below(s, k) + if x < k {
            1nat
        } else {
            0nat
        },
    decreases k,
{
    if k > 0 {
        lemma_count_below_push(s, x, (k - 1) as nat);
        lemma_count_push(s, x, k - 1);
    }
}

proof fn lemma_count_below_all(s: Seq<u8>)
    ensures
        count_below(s, 256) == s.len(),
    decreases s.len(),
{
    if s.len() == 0 {
        assert(s =~= Seq::<u8>::empty());
        lemma_count_below_zero(256);
    } else {
        lemma_count_below_all(s.drop_last());
        assert(s.drop_last().push(s.last()) =~= s);
        lemma_count_below_push(s.drop_last(), s.last(), 256);
    }
}

proof fn lemma_count_below_zero(k: nat)
    ensures
        count_below(Seq::<u8>::empty(), k) == 0,
    decreases k,
{
    if k > 0 {
        lemma_count_below_zero((k - 1) as nat);
    }
}

proof fn lemma_overlap_empty(k: nat)
    ensures
        overlap_upto(Seq::<u8>::empty(), Seq::<u8>::empty(), k) == 0,
    decreases k,
{
    if k > 0 {
        lemma_overlap_empty((k - 1) as nat);
    }
}

/// The number of exact matches never exceeds the colour overlap, which never
/// exceeds the code length.
pub proof fn lemma_feedback_bounds(g: Seq<u8>, c: Seq<u8>)
    requires
        g.len() == c.len(),
    ensures
        exact_matches(g, c) <= overlap(g, c),
        overlap(g, c) <= g.len(),
    decreases g.len(),
{
    lemma_overlap_le_count(g, c, 256);
    lemma_count_below_all(g);
    if g.len() == 0 {
        lemma_overlap_empty(256);
        assert(c =~= Seq::<u8>::empty());
        assert(g =~= Seq::<u8>::empty());
    } else {
        lemma_feedback_bounds(g.drop_last(), c.drop_last());
        assert(g.drop_last().push(g.last()) =~= g);
        assert(c.drop_last().push(c.last()) =~= c);
        lemma_overlap_step(g.drop_last(), c.drop_last(), g.last(), c.last(), 256);
    }
}

proof fn lemma_overlap_symmetric(g: Seq<u8>, c: Seq<u8>, k: nat)
    ensures
        overlap_upto(g, c, k) == overlap_upto(c, g, k),
    decreases k,
{
    if k > 0 {
        lemma_overlap_symmetric(g, c, (k - 1) as nat);
    }
}

proof fn lemma_exact_symmetric(g: Seq<u8>, c: Seq<u8>)
    requires
        g.len() == c.len(),
    ensures
        exact_matches(g, c) == exact_matches(c, g),
    decreases g.len(),
{
    if g.len() > 0 {
        lemma_exact_symmetric(g.drop_last(), c.drop_last());
    }
}

proof fn lemma_exact_self(g: Seq<u8>)
    ensures
        exact_matches(g, g) == g.len(),
    decreases g.len(),
{
    if g.len() > 0 {
        lemma_exact_self(g.drop_last());
    }
}

proof fn lemma_overlap_self(g: Seq<u8>, k: nat)
    ensures
        overlap_upto(g, g, k) == count_below(g, k),
    decreases k,
{
    if k > 0 {
        lemma_overlap_self(g, (k - 1) as nat);
    }
}

/// Feedback is symmetric: swapping guess and candidate gives the same marks.
pub proof fn lemma_feedback_symmetric(g: Seq<u8>, c: Seq<u8>)
    requires
        g.len() == c.len(),
    ensures
        feedback(g, c) == feedback(c, g),
{
    lemma_exact_symmetric(g, c);
    lemma_overlap_symmetric(g, c, 256);
}

/// A code judged against itself gets every mark exact and none partial.
pub proof fn lemma_feedback_self(g: Seq<u8>)
    ensures
        feedback(g, g) == (g.len() as int, 0int),
{
    lemma_exact_self(g);
    lemma_overlap_self(g, 256);
    lemma_count_below_all(g);
}

/// All marks exact happens exactly when the guess is the candidate.
pub proof fn lemma_all_exact_iff_equal(g: Seq<u8>, c: Seq<u8>)
    requires
        g.len() == c.len(),
    ensures
        exact_matches(g, c) == g.len() <==> g == c,
    decreases g.len(),
{
    if g.len() == 0 {
        assert(g =~= c);
    } else {
        lemma_all_exact_iff_equal(g.drop_last(), c.drop_last());
        lemma_exact_le_len(g.drop_last(), c.drop_last());
        if g.last() == c.last() && g.drop_last() == c.drop_last() {
            assert(g =~= g.drop_last().push(g.last()));
            assert(c =~= c.drop_last().push(c.last()));
        }
        if g == c {
            assert(g.drop_last() =~= c.drop_last());
        }
    }
}

proof fn lemma_exact_le_len(g: Seq<u8>, c: Seq<u8>)
    ensures
        exact_matches(g, c) <= g.len(),
    decreases g.len(),
{
    if g.len() > 0 {
        lemma_exact_le_len(g.drop_last(), c.drop_last());
    }
}

fn count_in(s: &[u8], col: u8) -> (n: usize)
    ensures
        n == count_color(s@, col as int),
{
    let mut n: usize = 0;
    let mut i: usize = 0;
    while i < s.len()
        invariant
            i <= s.len(),
            n == count_color(s@.take(i as int), col as int),
            n <= i,
        decreases s.len() - i,
    {
        assert(s@.take(i + 1).drop_last() =~= s@.take(i as int));
        if s[i] == col {
            n += 1;
        }
        i += 1;
    }
    assert(s@.take(s.len() as int) =~= s@);
    n
}

fn seen_before(s: &[u8], end: usize, col: u8) -> (b: bool)
    requires
        end <= s.len(),
    ensures
        b == s@.take(end as int).contains(col),
{
    let mut i: usize = 0;
    while i < end
        invariant
            i <= end <= s.len(),
            forall|j: int| 0 <= j < i ==> s@[j] != col,
        decreases end - i,
    {
        if s[i] == col {
            assert(s@.take(end as int)[i as int] == col);
            return true;
        }
        i += 1;
    }
    false
}

/// Feedback of `guess` against `candidate`: (exact marks, partial marks).
pub fn judge(guess: &[u8], candidate: &[u8]) -> (r: (u8, u8))
    requires
        guess.len() == candidate.len(),
        guess.len() <= u8::MAX,
    ensures
        r.0 == exact_matches(guess@, candidate@),
        r.1 == overlap(guess@, candidate@) - exact_matches(guess@, candidate@),
        (r.0 as int, r.1 as int) == feedback(guess@, candidate@),
        r.0 + r.1 <= guess.len(),
{
    let n = guess.len();
    let mut exact: usize = 0;
    let mut i: usize = 0;
    while i < n
        invariant
            n == guess.len() == candidate.len(),
            i <= n,
            exact == exact_matches(guess@.take(i as int), candidate@.take(i as int)),
            exact <= i,
        decreases n - i,
    {
        assert(guess@.take(i + 1).drop_last() =~= guess@.take(i as int));
        assert(candidate@.take(i + 1).drop_last() =~= candidate@.take(i as int));
        if guess[i] == candidate[i] {
            exact += 1;
        }
        i += 1;
    }
    assert(guess@.take(n as int) =~= guess@);
    assert(candidate@.take(n as int) =~= candidate@);
    proof {
        lemma_feedback_bounds(guess@, candidate@);
        lemma_within_full(guess@, candidate@, 256);
        lemma_within_empty(guess@, candidate@, 256);
        assert(guess@.take(0) =~= Seq::<u8>::empty());
    }
    let mut overlap_sum: usize = 0;
    let mut i: usize = 0;
    while i < n
        invariant
            n == guess.len() == candidate.len(),
            n <= u8::MAX,
            i <= n,
            overlap_sum == overlap_within(guess@, candidate@, 256, guess@.take(i as int)),
            overlap_within(guess@, candidate@, 256, guess@) == overlap(guess@, candidate@),
            overlap(guess@, candidate@) <= n,
        decreases n - i,
    {
        let color = guess[i];
        let seen = seen_before(guess, i, color);
        assert(guess@.take(i + 1) =~= guess@.take(i as int).push(color));
        if seen {
            proof {
                lemma_within_push_old(guess@, candidate@, 256, guess@.take(i as int), color);
            }
        } else {
            let g = count_in(guess, color);
            let c = count_in(candidate, color);
            proof {
                lemma_within_push_new(guess@, candidate@, 256, guess@.take(i as int), color);
                assert forall|x: u8| #[trigger] guess@.take(i + 1).contains(x) implies guess@.contains(x) by {
                    let pre = guess@.take(i + 1);
                    let j = choose|j: int| 0 <= j < pre.len() && #[trigger] pre[j] == x;
                    assert(guess@[j] == x);
                }
                lemma_within_monotone(guess@, candidate@, 256, guess@.take(i + 1), guess@);
            }
            let m = if g <= c {
                g
            } else {
                c
            };
            overlap_sum = overlap_sum + m;
        }
        i += 1;
    }
    assert(guess@.take(n as int) =~= guess@);
    (exact as u8, (overlap_sum as u8) - (exact as u8))
}

proof fn lemma_within_empty(g: Seq<u8>, c: Seq<u8>, k: nat)
    ensures
        overlap_within(g, c, k, Seq::<u8>::empty()) == 0,
    decreases k,
{
    if k > 0 {
        lemma_within_empty(g, c, (k - 1) as nat);
    }
}

proof fn lemma_within_monotone(g: Seq<u8>, c: Seq<u8>, k: nat, p: Seq<u8>, q: Seq<u8>)
    requires
        forall|x: u8| #[trigger] p.contains(x) ==> q.contains(x),
    ensures
        overlap_within(g, c, k, p) <= overlap_within(g, c, k, q),
    decreases k,
{
    if k > 0 {
        lemma_within_monotone(g, c, (k - 1) as nat, p, q);
    }
}

/// Codes that agree everywhere but at one position `i` have colour counts
/// that differ only by the two colours at `i`.
proof fn lemma_one_diff(g: Seq<u8>, c: Seq<u8>) -> (i: int)
    requires
        g.len() == c.len(),
        exact_matches(g, c) + 1 == g.len(),
    ensures
        0 <= i < g.len(),
        g[i] != c[i],
        forall|col: int| #[trigger] count_color(g, col) + (if c[i] == col { 1int } else { 0int }) == count_color(c, col) + (if g[i] == col { 1int } else { 0int }),
    decreases g.len(),
{
    let gd = g.drop_last();
    let cd = c.drop_last();
    assert(gd.push(g.last()) =~= g);
    assert(cd.push(c.last()) =~= c);
    if g.last() == c.last() {
        let j = lemma_one_diff(gd, cd);
        assert forall|col: int| #[trigger] count_color(g, col) + (if c[j] == col { 1int } else { 0int }) == count_color(c, col) + (if g[j] == col { 1int } else { 0int }) by {
            lemma_count_push(gd, g.last(), col);
            lemma_count_push(cd, c.last(), col);
            assert(count_color(gd, col) + (if cd[j] == col { 1int } else { 0int }) == count_color(cd, col) + (if gd[j] == col { 1int } else { 0int }));
        }
        j
    } else {
        lemma_exact_le_len(gd, cd);
        lemma_all_exact_iff_equal(gd, cd);
        assert(gd == cd);
        assert forall|col: int| #[trigger] count_color(g, col) + (if c[g.len() - 1] == col { 1int } else { 0int }) == count_color(c, col) + (if g[g.len() - 1] == col { 1int } else { 0int }) by {
            lemma_count_push(gd, g.last(), col);
            lemma_count_push(cd, c.last(), col);
        }
        g.len() - 1
    }
}

/// A colour below `k` that `g` holds more often than `c` leaves the overlap
/// below `g`'s count of colours under `k`.
proof fn lemma_overlap_strict(g: Seq<u8>, c: Seq<u8>, k: nat, col: int)
    requires
        0 <= col < k,
        count_color(c, col) < count_color(g, col),
    ensures
        overlap_upto(g, c, k) + 1 <= count_below(g, k),
    decreases k,
{
    if col == k - 1 {
        lemma_overlap_le_count(g, c, (k - 1) as nat);
    } else {
        lemma_overlap_strict(g, c, (k - 1) as nat, col);
    }
}

/// Marks with all but one exact leave no partial mark: the one colour out of
/// place cannot match elsewhere.
pub proof fn lemma_one_off_no_partial(g: Seq<u8>, c: Seq<u8>)
    requires
        g.len() == c.len(),
        exact_matches(g, c) + 1 == g.len(),
    ensures
        feedback(g, c).1 == 0,
{
    let i = lemma_one_diff(g, c);
    let x = g[i] as int;
    assert(count_color(g, x) + 0 == count_color(c, x) + 1);
    lemma_overlap_strict(g, c, 256, x);
    lemma_count_below_all(g);
    lemma_feedback_bounds(g, c);
}

} // verus!
