//! Enumeration of the answer space, candidate filtering and contradiction
//! diagnosis.
use vstd::prelude::*;

use crate::judge::{feedback, judge};
use crate::model::{Record, Settings};

verus! {

pub open spec fn power(b: nat, e: nat) -> nat
    decreases e,
{
    if e == 0 {
        1
    } else {
        b * power(b, (e - 1) as nat)
    }
}

/// The `n`-digit base-`b` numeral of `i`, most significant digit first.
pub open spec fn odometer_code(i: nat, b: nat, n: nat) -> Seq<u8> {
    Seq::new(n, |pos: int| ((i / power(b, (n - 1 - pos) as nat)) % b) as u8)
}

/// All `b^n` codes in odometer order: the last slot changes fastest.
pub open spec fn odometer_space(b: nat, n: nat) -> Seq<Seq<u8>> {
    Seq::new(power(b, n), |i: int| odometer_code(i as nat, b, n))
}

/// All codes of length `k` over `n` colours without a repeated colour that
/// extend `prefix`, in lexicographic order.
pub open spec fn perms(n: nat, k: nat, prefix: Seq<u8>) -> Seq<Seq<u8>>
    decreases k - prefix.len(), n + 1,
{
    if prefix.len() >= k {
        seq![prefix]
    } else {
        perms_from(n, k, prefix, 0)
    }
}

/// The part of `perms(n, k, prefix)` whose next colour is at least `c`.
pub open spec fn perms_from(n: nat, k: nat, prefix: Seq<u8>, c: nat) -> Seq<Seq<u8>>
    decreases k - prefix.len(), n - c,
{
    if c >= n || prefix.len() >= k {
        Seq::empty()
    } else {
        (if prefix.contains(c as u8) {
            Seq::empty()
        } else {
            perms(n, k, prefix.push(c as u8))
        }) + perms_from(n, k, prefix, c + 1)
    }
}

/// The answer space of `settings`: all codes in odometer order when colours
/// may repeat, otherwise all repetition-free codes in lexicographic order.
pub open spec fn space_of(settings: Settings) -> Seq<Seq<u8>> {
    if settings.repeats {
        odometer_space(settings.colors as nat, settings.slots as nat)
    } else {
        perms(settings.colors as nat, settings.slots as nat, Seq::empty())
    }
}

/// Settings for which the answer space can be enumerated.
pub open spec fn enumerable(settings: Settings) -> bool {
    1 <= settings.colors <= 8 && settings.slots <= 6
}

pub proof fn lemma_power_base_mono(a: nat, b: nat, e: nat)
    requires
        a <= b,
    ensures
        power(a, e) <= power(b, e),
    decreases e,
{
    if e > 0 {
        lemma_power_base_mono(a, b, (e - 1) as nat);
        let pa = power(a, (e - 1) as nat);
        let pb = power(b, (e - 1) as nat);
        assert(a * pa <= b * pb) by (nonlinear_arith)
            requires
                a <= b,
                pa <= pb,
        ;
    }
}

pub proof fn lemma_power_exp_mono(b: nat, e1: nat, e2: nat)
    requires
        b >= 1,
        e1 <= e2,
    ensures
        power(b, e1) <= power(b, e2),
    decreases e2,
{
    if e1 < e2 {
        lemma_power_exp_mono(b, e1, (e2 - 1) as nat);
        let p = power(b, (e2 - 1) as nat);
        assert(p <= b * p) by (nonlinear_arith)
            requires
                b >= 1,
        ;
    }
}

pub proof fn lemma_power_positive(b: nat, e: nat)
    requires
        b >= 1,
    ensures
        power(b, e) >= 1,
{
    lemma_power_exp_mono(b, 0, e);
}

pub proof fn lemma_space_size_bound(b: nat, e: nat)
    requires
        1 <= b <= 8,
        e <= 6,
    ensures
        1 <= power(b, e) <= 262144,
{
    lemma_power_base_mono(b, 8, e);
    lemma_power_exp_mono(8, e, 6);
    lemma_power_positive(b, e);
    assert(power(8, 6) == 262144) by {
        reveal_with_fuel(power, 7);
    }
}

/// The `slots`-digit base-`colors` numeral of `i`, most significant first.
pub fn odometer_digits(i: usize, colors: usize, slots: usize) -> (v: Vec<u8>)
    requires
        1 <= colors <= 8,
        slots <= 6,
    ensures
        v@ == odometer_code(i as nat, colors as nat, slots as nat),
{
    let mut v: Vec<u8> = Vec::new();
    let mut z: usize = 0;
    while z < slots
        invariant
            z <= slots,
            v@.len() == z,
            forall|q: int| 0 <= q < z ==> v@[q] == 0,
        decreases slots - z,
    {
        v.push(0);
        z += 1;
    }
    let mut rest: usize = i;
    let mut pos: usize = slots;
    proof {
        assert(power(colors as nat, 0) == 1);
        assert((i as nat) / 1 == i as nat);
    }
    while pos > 0
        invariant
            1 <= colors <= 8,
            slots <= 6,
            pos <= slots,
            v@.len() == slots,
            rest == (i as nat) / power(colors as nat, (slots - pos) as nat),
            forall|q: int|
                pos <= q < slots ==> #[trigger] v@[q] == (((i as nat) / power(
                    colors as nat,
                    (slots - 1 - q) as nat,
                )) % (colors as nat)) as u8,
        decreases pos,
    {
        pos -= 1;
        let d = (rest % colors) as u8;
        v.set(pos, d);
        proof {
            let m = (slots - 1 - pos) as nat;
            lemma_power_positive(colors as nat, m);
            vstd::arithmetic::div_mod::lemma_div_denominator(
                i as int,
                power(colors as nat, m) as int,
                colors as int,
            );
            assert(power(colors as nat, m + 1) == colors * power(colors as nat, m));
            assert(power(colors as nat, m) * colors == colors * power(colors as nat, m))
                by (nonlinear_arith);
        }
        rest = rest / colors;
    }
    assert(v@ =~= odometer_code(i as nat, colors as nat, slots as nat));
    v
}

fn odometer(colors: usize, slots: usize) -> (out: Vec<Vec<u8>>)
    requires
        1 <= colors <= 8,
        slots <= 6,
    ensures
        out.deep_view() == odometer_space(colors as nat, slots as nat),
{
    let mut total: usize = 1;
    let mut k: usize = 0;
    while k < slots
        invariant
            1 <= colors <= 8,
            slots <= 6,
            k <= slots,
            total == power(colors as nat, k as nat),
        decreases slots - k,
    {
        proof {
            lemma_space_size_bound(colors as nat, (k + 1) as nat);
            assert(power(colors as nat, (k + 1) as nat) == colors * power(colors as nat, k as nat));
            assert(total * colors == colors * total) by (nonlinear_arith);
        }
        total = total * colors;
        k += 1;
    }
    proof {
        lemma_space_size_bound(colors as nat, slots as nat);
    }
    let ghost space = odometer_space(colors as nat, slots as nat);
    let mut out: Vec<Vec<u8>> = Vec::new();
    let mut i: usize = 0;
    while i < total
        invariant
            1 <= colors <= 8,
            slots <= 6,
            total == power(colors as nat, slots as nat),
            space == odometer_space(colors as nat, slots as nat),
            i <= total,
            out.deep_view() =~= space.take(i as int),
        decreases total - i,
    {
        let v = odometer_digits(i, colors, slots);
        assert(v@ =~= odometer_code(i as nat, colors as nat, slots as nat));
        assert(v.deep_view() =~= v@);
        let ghost prev = out.deep_view();
        out.push(v);
        assert(out.deep_view() =~= prev.push(odometer_code(i as nat, colors as nat, slots as nat)));
        assert(space.take(i + 1) =~= space.take(i as int).push(space[i as int]));
        i += 1;
    }
    assert(space.take(total as int) =~= space);
    out
}

proof fn lemma_push_contains(p: Seq<u8>, x: u8, y: u8)
    ensures
        p.push(x).contains(y) <==> (p.contains(y) || y == x),
{
    if p.push(x).contains(y) {
        let i = choose|i: int| 0 <= i < p.push(x).len() && p.push(x)[i] == y;
        if i < p.len() {
            assert(p[i] == y);
        }
    }
    if p.contains(y) {
        let i = choose|i: int| 0 <= i < p.len() && p[i] == y;
        assert(p.push(x)[i] == y);
    }
    if y == x {
        assert(p.push(x)[p.len() as int] == y);
    }
}

fn permutations_from(
    colors: usize,
    slots: usize,
    cur: &mut Vec<u8>,
    used: &mut Vec<bool>,
    out: &mut Vec<Vec<u8>>,
)
    requires
        colors <= 8,
        old(cur)@.len() <= slots,
        old(used)@.len() == colors,
        forall|c: int|
            0 <= c < colors ==> (#[trigger] old(used)@[c] <==> old(cur)@.contains(c as u8)),
    ensures
        final(cur)@ == old(cur)@,
        final(used)@ == old(used)@,
        final(out).deep_view() =~= old(out).deep_view() + perms(
            colors as nat,
            slots as nat,
            old(cur)@,
        ),
    decreases slots - old(cur)@.len(),
{
    if cur.len() == slots {
        let copy = cur.clone();
        assert(copy@ =~= cur@);
        assert(copy.deep_view() =~= cur@);
        let ghost prev = out.deep_view();
        out.push(copy);
        assert(out.deep_view() =~= prev.push(cur@));
        return;
    }
    let ghost cur0 = cur@;
    let ghost used0 = used@;
    let ghost out0 = out.deep_view();
    let mut c: usize = 0;
    while c < colors
        invariant
            colors <= 8,
            cur0.len() < slots,
            c <= colors,
            cur@ == cur0,
            cur0 == old(cur)@,
            used@ == used0,
            used0.len() == colors,
            forall|c: int| 0 <= c < colors ==> (#[trigger] used0[c] <==> cur0.contains(c as u8)),
            out.deep_view() + perms_from(colors as nat, slots as nat, cur0, c as nat) =~= out0
                + perms(colors as nat, slots as nat, cur0),
        decreases colors - c,
    {
        let ghost before = out.deep_view();
        if used[c] {
            assert(cur0.contains(c as u8));
            assert(before + perms_from(colors as nat, slots as nat, cur0, (c + 1) as nat)
                =~= before + perms_from(colors as nat, slots as nat, cur0, c as nat));
        } else {
            used.set(c, true);
            cur.push(c as u8);
            proof {
                assert forall|d: int| 0 <= d < colors implies (#[trigger] used@[d]
                    <==> cur@.contains(d as u8)) by {
                    lemma_push_contains(cur0, c as u8, d as u8);
                }
            }
            permutations_from(colors, slots, cur, used, out);
            cur.pop();
            used.set(c, false);
            assert(cur@ =~= cur0);
            assert(used@ =~= used0);
            let ghost sub = perms(colors as nat, slots as nat, cur0.push(c as u8));
            assert(out.deep_view() =~= before + sub);
            assert(perms_from(colors as nat, slots as nat, cur0, c as nat) =~= sub
                + perms_from(colors as nat, slots as nat, cur0, (c + 1) as nat));
        }
        c += 1;
    }
    assert(perms_from(colors as nat, slots as nat, cur0, colors as nat) =~= Seq::<Seq<u8>>::empty());
    assert(out.deep_view() + Seq::<Seq<u8>>::empty() =~= out.deep_view());
}

/// Enumerates every possible answer. With repeats the codes come in odometer
/// order (the last slot changes fastest); without, as repetition-free codes in
/// lexicographic order.
pub fn enumerate_space(settings: &Settings) -> (out: Vec<Vec<u8>>)
    requires
        enumerable(*settings),
    ensures
        out.deep_view() == space_of(*settings),
{
    let colors = settings.colors;
    let slots = settings.slots;
    if settings.repeats {
        odometer(colors, slots)
    } else {
        let mut out: Vec<Vec<u8>> = Vec::new();
        let mut cur: Vec<u8> = Vec::new();
        let mut used: Vec<bool> = Vec::new();
        let mut z: usize = 0;
        while z < colors
            invariant
                z <= colors,
                used@.len() == z,
                forall|q: int| 0 <= q < z ==> !used@[q],
            decreases colors - z,
        {
            used.push(false);
            z += 1;
        }
        assert(out.deep_view() =~= Seq::<Seq<u8>>::empty());
        permutations_from(colors, slots, &mut cur, &mut used, &mut out);
        assert(cur@ =~= Seq::<u8>::empty());
        out
    }
}

/// `r` is disabled, or gives exactly the recorded feedback against `cand`.
pub open spec fn record_accepts(r: Record, cand: Seq<u8>) -> bool {
    !r.enabled || feedback(r.guess@, cand) == (r.exact as int, r.partial as int)
}

/// `cand` agrees with every enabled record.
pub open spec fn consistent(records: Seq<Record>, cand: Seq<u8>) -> bool {
    forall|j: int| 0 <= j < records.len() ==> #[trigger] record_accepts(records[j], cand)
}

/// `cand` agrees with every enabled record other than the one at `skip`.
pub open spec fn consistent_except(records: Seq<Record>, skip: int, cand: Seq<u8>) -> bool {
    forall|j: int| 0 <= j < records.len() && j != skip ==> #[trigger] record_accepts(records[j], cand)
}

/// The answers of the space that agree with every enabled record, in
/// enumeration order.
pub open spec fn candidates_of(settings: Settings, records: Seq<Record>) -> Seq<Seq<u8>> {
    space_of(settings).filter(|c: Seq<u8>| consistent(records, c))
}

/// The enabled records can all be satisfied by some answer.
pub open spec fn satisfiable(settings: Settings, records: Seq<Record>) -> bool {
    exists|c: Seq<u8>| #[trigger] space_of(settings).contains(c) && consistent(records, c)
}

/// Record `i` is enabled, and switching it off leaves some answer.
pub open spec fn is_suspect(settings: Settings, records: Seq<Record>, i: int) -> bool {
    &&& 0 <= i < records.len()
    &&& records[i].enabled
    &&& exists|c: Seq<u8>| #[trigger] space_of(settings).contains(c) && consistent_except(records, i, c)
}

/// The guesses of all enabled records have the length of an answer.
pub open spec fn well_shaped(settings: Settings, records: Seq<Record>) -> bool {
    forall|j: int| 0 <= j < records.len() && (#[trigger] records[j]).enabled ==> records[j].guess@.len() == settings.slots
}

/// Every code of `perms(n, k, p)` has length `k`, extends `p`, and uses only
/// colours below `n`, when `p` does.
pub proof fn lemma_perms_shape(n: nat, k: nat, p: Seq<u8>)
    requires
        p.len() <= k,
        n <= 256,
        forall|i: int| 0 <= i < p.len() ==> (#[trigger] p[i] as nat) < n,
    ensures
        forall|x: Seq<u8>| #[trigger] perms(n, k, p).contains(x) ==> x.len() == k && x.take(p.len() as int) == p
            && forall|i: int| 0 <= i < x.len() ==> (#[trigger] x[i] as nat) < n,
    decreases k - p.len(), n + 1,
{
    if p.len() >= k {
        assert forall|x: Seq<u8>| #[trigger] perms(n, k, p).contains(x) implies x.len() == k && x.take(p.len() as int) == p
            && forall|i: int| 0 <= i < x.len() ==> (#[trigger] x[i] as nat) < n by {
            assert(perms(n, k, p)[0] == p);
            assert(x == p);
            assert(x.take(p.len() as int) =~= p);
        }
    } else {
        lemma_perms_from_shape(n, k, p, 0);
        assert(perms(n, k, p) == perms_from(n, k, p, 0));
    }
}

proof fn lemma_perms_from_shape(n: nat, k: nat, p: Seq<u8>, c: nat)
    requires
        p.len() <= k,
        n <= 256,
        forall|i: int| 0 <= i < p.len() ==> (#[trigger] p[i] as nat) < n,
    ensures
        forall|x: Seq<u8>| #[trigger] perms_from(n, k, p, c).contains(x) ==> x.len() == k && x.take(p.len() as int) == p
            && forall|i: int| 0 <= i < x.len() ==> (#[trigger] x[i] as nat) < n,
    decreases k - p.len(), n - c,
{
    if c < n && p.len() < k {
        lemma_perms_from_shape(n, k, p, c + 1);
        if !p.contains(c as u8) {
            let q = p.push(c as u8);
            assert forall|i: int| 0 <= i < q.len() implies (#[trigger] q[i] as nat) < n by {
                if i < p.len() {
                    assert(q[i] == p[i]);
                }
            }
            lemma_perms_shape(n, k, q);
            assert forall|x: Seq<u8>| #[trigger] perms_from(n, k, p, c).contains(x) implies x.len() == k
                && x.take(p.len() as int) == p && forall|i: int| 0 <= i < x.len() ==> (#[trigger] x[i] as nat) < n by {
                let a = perms(n, k, q);
                let b = perms_from(n, k, p, c + 1);
                assert(perms_from(n, k, p, c) == a + b);
                let idx = choose|idx: int| 0 <= idx < (a + b).len() && (a + b)[idx] == x;
                if idx < a.len() {
                    assert(a.contains(x)) by {
                        assert(a[idx] == x);
                    }
                    assert(x.take(q.len() as int) == q);
                    assert(x.take(p.len() as int) =~= q.take(p.len() as int));
                    assert(q.take(p.len() as int) =~= p);
                } else {
                    assert(b.contains(x)) by {
                        assert(b[idx - a.len()] == x);
                    }
                }
            }
        } else {
            assert(perms_from(n, k, p, c) =~= perms_from(n, k, p, c + 1));
        }
    }
}

/// Every code of the answer space has `slots` entries, each below `colors`.
pub proof fn lemma_space_shape(settings: Settings)
    requires
        enumerable(settings),
    ensures
        forall|x: Seq<u8>| #[trigger] space_of(settings).contains(x) ==> x.len() == settings.slots
            && forall|i: int| 0 <= i < x.len() ==> (#[trigger] x[i] as int) < settings.colors,
{
    if settings.repeats {
        assert forall|x: Seq<u8>| #[trigger] space_of(settings).contains(x) implies x.len() == settings.slots
            && forall|i: int| 0 <= i < x.len() ==> (#[trigger] x[i] as int) < settings.colors by {
            let sp = space_of(settings);
            let idx = choose|idx: int| 0 <= idx < sp.len() && sp[idx] == x;
            assert forall|i: int| 0 <= i < x.len() implies (#[trigger] x[i] as int) < settings.colors by {
                let v = ((idx as nat) / power(settings.colors as nat, (settings.slots - 1 - i) as nat)) % (settings.colors as nat);
                assert(v < settings.colors);
                assert(x[i] == v as u8);
            }
        }
    } else {
        lemma_perms_shape(settings.colors as nat, settings.slots as nat, Seq::empty());
    }
}

fn accepts_all(records: &[Record], cand: &Vec<u8>) -> (b: bool)
    requires
        cand@.len() <= u8::MAX,
        forall|j: int| 0 <= j < records@.len() && (#[trigger] records@[j]).enabled ==> records@[j].guess@.len() == cand@.len(),
    ensures
        b == consistent(records@, cand@),
{
    let mut j: usize = 0;
    while j < records.len()
        invariant
            j <= records@.len(),
            cand@.len() <= u8::MAX,
            forall|q: int| 0 <= q < records@.len() && (#[trigger] records@[q]).enabled ==> records@[q].guess@.len() == cand@.len(),
            forall|q: int| 0 <= q < j ==> #[trigger] record_accepts(records@[q], cand@),
        decreases records@.len() - j,
    {
        let r = &records[j];
        if r.enabled {
            let fb = judge(r.guess.as_slice(), cand.as_slice());
            if fb.0 != r.exact || fb.1 != r.partial {
                assert(!record_accepts(records@[j as int], cand@));
                return false;
            }
        }
        j += 1;
    }
    true
}

/// The answers that agree with every enabled record, in enumeration order.
/// Disabled records take no part.
pub fn filter_candidates(settings: &Settings, records: &[Record]) -> (out: Vec<Vec<u8>>)
    requires
        enumerable(*settings),
        well_shaped(*settings, records@),
    ensures
        out.deep_view() == candidates_of(*settings, records@),
{
    let space = enumerate_space(settings);
    let ghost sp = space_of(*settings);
    let ghost pred = |c: Seq<u8>| consistent(records@, c);
    proof {
        lemma_space_shape(*settings);
    }
    let mut out: Vec<Vec<u8>> = Vec::new();
    let mut i: usize = 0;
    while i < space.len()
        invariant
            space.deep_view() == sp,
            sp == space_of(*settings),
            enumerable(*settings),
            well_shaped(*settings, records@),
            pred == (|c: Seq<u8>| consistent(records@, c)),
            forall|x: Seq<u8>| #[trigger] sp.contains(x) ==> x.len() == settings.slots
                && forall|q: int| 0 <= q < x.len() ==> (#[trigger] x[q] as int) < settings.colors,
            i <= space@.len(),
            out.deep_view() =~= sp.take(i as int).filter(pred),
        decreases space@.len() - i,
    {
        let cand = &space[i];
        assert(sp[i as int] == cand@);
        assert(sp.contains(cand@));
        let keep = accepts_all(records, cand);
        let ghost prev = out.deep_view();
        assert(sp.take(i + 1).drop_last() =~= sp.take(i as int));
        assert(sp.take(i + 1).last() == cand@);
        reveal_with_fuel(Seq::filter, 1);
        if keep {
            let copy = cand.clone();
            assert(copy@ =~= cand@);
            assert(copy.deep_view() =~= cand@);
            out.push(copy);
            assert(out.deep_view() =~= prev.push(cand@));
        }
        i += 1;
    }
    assert(sp.take(space@.len() as int) =~= sp);
    out
}

proof fn lemma_filter_nonempty(s: Seq<Seq<u8>>, pred: spec_fn(Seq<u8>) -> bool)
    ensures
        s.filter(pred).len() > 0 <==> exists|c: Seq<u8>| #[trigger] s.contains(c) && pred(c),
{
    if s.filter(pred).len() > 0 {
        s.lemma_filter_pred(pred, 0);
        let x = s.filter(pred)[0];
        s.lemma_filter_contains_rev(pred, x);
        assert(s.filter(pred).contains(x));
    }
    if exists|c: Seq<u8>| #[trigger] s.contains(c) && pred(c) {
        let c = choose|c: Seq<u8>| #[trigger] s.contains(c) && pred(c);
        let idx = choose|idx: int| 0 <= idx < s.len() && s[idx] == c;
        s.lemma_filter_contains(pred, idx);
    }
}

fn records_without(records: &[Record], skip: usize) -> (out: Vec<Record>)
    ensures
        out@.len() == records@.len(),
        forall|j: int| 0 <= j < records@.len() ==> {
            &&& (#[trigger] out@[j]).guess@ == records@[j].guess@
            &&& out@[j].exact == records@[j].exact
            &&& out@[j].partial == records@[j].partial
            &&& out@[j].enabled == (records@[j].enabled && j != skip)
        },
{
    let mut out: Vec<Record> = Vec::new();
    let mut j: usize = 0;
    while j < records.len()
        invariant
            j <= records@.len(),
            out@.len() == j,
            forall|q: int| 0 <= q < j ==> {
                &&& (#[trigger] out@[q]).guess@ == records@[q].guess@
                &&& out@[q].exact == records@[q].exact
                &&& out@[q].partial == records@[q].partial
                &&& out@[q].enabled == (records@[q].enabled && q != skip)
            },
        decreases records@.len() - j,
    {
        let mut r = records[j].duplicate();
        if j == skip {
            r.enabled = false;
        }
        out.push(r);
        j += 1;
    }
    out
}

/// Contradiction diagnosis: when no answer agrees with all enabled records,
/// the indices (ascending) of the enabled records whose removal leaves some
/// answer; otherwise nothing.
pub fn suspect_records(settings: &Settings, records: &[Record]) -> (out: Vec<usize>)
    requires
        enumerable(*settings),
        well_shaped(*settings, records@),
    ensures
        satisfiable(*settings, records@) ==> out@.len() == 0,
        !satisfiable(*settings, records@) ==> {
            &&& forall|k: int| 0 <= k < out@.len() ==> is_suspect(*settings, records@, #[trigger] out@[k] as int)
            &&& forall|k: int, l: int| 0 <= k < l < out@.len() ==> out@[k] < out@[l]
            &&& forall|i: int| #[trigger] is_suspect(*settings, records@, i) ==> out@.contains(i as usize)
        },
{
    let all = filter_candidates(settings, records);
    proof {
        lemma_filter_nonempty(space_of(*settings), |c: Seq<u8>| consistent(records@, c));
    }
    if all.len() > 0 {
        assert(all.deep_view().len() > 0);
        return Vec::new();
    }
    assert(all.deep_view().len() == 0);
    let mut out: Vec<usize> = Vec::new();
    let mut i: usize = 0;
    while i < records.len()
        invariant
            i <= records@.len(),
            enumerable(*settings),
            well_shaped(*settings, records@),
            !satisfiable(*settings, records@),
            forall|k: int| 0 <= k < out@.len() ==> is_suspect(*settings, records@, #[trigger] out@[k] as int),
            forall|k: int| 0 <= k < out@.len() ==> #[trigger] out@[k] < i,
            forall|k: int, l: int| 0 <= k < l < out@.len() ==> out@[k] < out@[l],
            forall|q: int| 0 <= q < i && #[trigger] is_suspect(*settings, records@, q) ==> out@.contains(q as usize),
        decreases records@.len() - i,
    {
        if records[i].enabled {
            let others = records_without(records, i);
            assert forall|j: int| 0 <= j < others@.len() && (#[trigger] others@[j]).enabled implies others@[j].guess@.len() == settings.slots by {
                assert(records@[j].enabled);
            }
            let rest = filter_candidates(settings, others.as_slice());
            let ghost p1 = |c: Seq<u8>| consistent(others@, c);
            proof {
                lemma_filter_nonempty(space_of(*settings), p1);
                assert forall|c: Seq<u8>| consistent(others@, c) <==> consistent_except(records@, i as int, c) by {
                    if consistent(others@, c) {
                        assert forall|j: int| 0 <= j < records@.len() && j != i implies #[trigger] record_accepts(records@[j], c) by {
                            assert(record_accepts(others@[j], c));
                        }
                    }
                    if consistent_except(records@, i as int, c) {
                        assert forall|j: int| 0 <= j < others@.len() implies #[trigger] record_accepts(others@[j], c) by {
                            if j != i {
                                assert(record_accepts(records@[j], c));
                            }
                        }
                    }
                }
            }
            if rest.len() > 0 {
                assert(rest.deep_view().len() > 0);
                let ghost c = choose|c: Seq<u8>| #[trigger] space_of(*settings).contains(c) && p1(c);
                assert(is_suspect(*settings, records@, i as int)) by {
                    assert(space_of(*settings).contains(c) && consistent_except(records@, i as int, c));
                }
                let ghost prev = out@;
                out.push(i);
                assert(out@[out@.len() - 1] == i);
                assert forall|q: int| 0 <= q < i + 1 && #[trigger] is_suspect(*settings, records@, q) implies out@.contains(q as usize) by {
                    if q < i {
                        let k = choose|k: int| 0 <= k < prev.len() && prev[k] == q as usize;
                        assert(out@[k] == q as usize);
                    } else {
                        assert(out@[out@.len() - 1] == q as usize);
                    }
                }
            } else {
                assert(rest.deep_view().len() == 0);
                assert(!is_suspect(*settings, records@, i as int));
            }
        }
        i += 1;
    }
    out
}

/// The odometer code of `i` ends with `i`'s last digit, after the code of
/// the other digits.
pub proof fn lemma_odometer_split(i: nat, b: nat, n: nat)
    requires
        1 <= b,
        1 <= n,
    ensures
        odometer_code(i, b, n).last() == (i % b) as u8,
        odometer_code(i, b, n).drop_last() == odometer_code(i / b, b, (n - 1) as nat),
{
    let code = odometer_code(i, b, n);
    let rest = odometer_code(i / b, b, (n - 1) as nat);
    assert(power(b, 0) == 1);
    assert(i / 1 == i);
    assert forall|pos: int| 0 <= pos < n - 1 implies #[trigger] code.drop_last()[pos] == rest[pos] by {
        let e = (n - 1 - pos) as nat;
        lemma_power_positive(b, (e - 1) as nat);
        assert(power(b, e) == b * power(b, (e - 1) as nat));
        vstd::arithmetic::div_mod::lemma_div_denominator(i as int, b as int, power(b, (e - 1) as nat) as int);
        assert(((n - 1) - 1 - pos) as nat == (e - 1) as nat);
    }
    assert(code.drop_last() =~= rest);
}

/// Different positions of the odometer space hold different codes.
pub proof fn lemma_odometer_injective(i: nat, j: nat, b: nat, n: nat)
    requires
        1 <= b <= 256,
        i < power(b, n),
        j < power(b, n),
        odometer_code(i, b, n) == odometer_code(j, b, n),
    ensures
        i == j,
    decreases n,
{
    if n > 0 {
        lemma_odometer_split(i, b, n);
        lemma_odometer_split(j, b, n);
        assert(i % b == j % b);
        lemma_power_positive(b, (n - 1) as nat);
        let p = power(b, (n - 1) as nat);
        assert(power(b, n) == b * p);
        vstd::arithmetic::div_mod::lemma_fundamental_div_mod(i as int, b as int);
        vstd::arithmetic::div_mod::lemma_fundamental_div_mod(j as int, b as int);
        assert(i / b < p) by (nonlinear_arith)
            requires
                i == b * (i / b) + i % b,
                i % b >= 0,
                i < b * p,
                b >= 1,
        ;
        assert(j / b < p) by (nonlinear_arith)
            requires
                j == b * (j / b) + j % b,
                j % b >= 0,
                j < b * p,
                b >= 1,
        ;
        lemma_odometer_injective(i / b, j / b, b, (n - 1) as nat);
    }
}

} // verus!
