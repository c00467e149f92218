//! Splitting text into lines and fields, and reading unsigned decimal
//! numbers, with the meaning that `str::lines`, `str::split` and
//! `str::parse` give them for ASCII separators.
use vstd::prelude::*;

verus! {

/// The pieces of `s` between occurrences of `sep`; always at least one.
pub open spec fn split_on(s: Seq<u8>, sep: u8) -> Seq<Seq<u8>>
    decreases s.len(),
{
    if s.len() == 0 {
        seq![Seq::empty()]
    } else {
        let rest = split_on(s.drop_last(), sep);
        if s.last() == sep {
            rest.push(Seq::empty())
        } else {
            rest.update(rest.len() - 1, rest.last().push(s.last()))
        }
    }
}

pub proof fn lemma_split_nonempty(s: Seq<u8>, sep: u8)
    ensures
        split_on(s, sep).len() >= 1,
    decreases s.len(),
{
    if s.len() > 0 {
        lemma_split_nonempty(s.drop_last(), sep);
    }
}

/// A line without its trailing carriage return, if it has one.
pub open spec fn strip_cr(line: Seq<u8>) -> Seq<u8> {
    if line.len() > 0 && line.last() == 13u8 {
        line.drop_last()
    } else {
        line
    }
}

/// The lines of `s`: pieces between line feeds, where a final line feed
/// ends the last line instead of starting an empty one and a carriage
/// return right before a line feed belongs to the line ending.
pub open spec fn lines_of(s: Seq<u8>) -> Seq<Seq<u8>> {
    let pieces = split_on(s, 10u8);
    if s.len() == 0 {
        Seq::empty()
    } else if s.last() == 10u8 {
        Seq::new((pieces.len() - 1) as nat, |i: int| strip_cr(pieces[i]))
    } else {
        Seq::new(
            pieces.len(),
            |i: int|
                if i < pieces.len() - 1 {
                    strip_cr(pieces[i])
                } else {
                    pieces[i]
                },
        )
    }
}

pub open spec fn is_digit(b: u8) -> bool {
    48 <= b <= 57
}

/// Value of a string of decimal digits.
pub open spec fn digits_value(d: Seq<u8>) -> nat
    decreases d.len(),
{
    if d.len() == 0 {
        0
    } else {
        digits_value(d.drop_last()) * 10 + (d.last() - 48) as nat
    }
}

/// The digits of a number, without an optional leading plus sign.
pub open spec fn unsigned_digits(s: Seq<u8>) -> Seq<u8> {
    if s.len() > 0 && s[0] == 43u8 {
        s.drop_first()
    } else {
        s
    }
}

/// An unsigned decimal number no larger than `max`: an optional `+`, then one
/// or more digits.
pub open spec fn parse_unsigned(s: Seq<u8>, max: nat) -> Option<nat> {
    let d = unsigned_digits(s);
    if d.len() > 0 && (forall|i: int| 0 <= i < d.len() ==> #[trigger] is_digit(d[i])) && digits_value(d) <= max {
        Some(digits_value(d))
    } else {
        None
    }
}

/// Splits `s` at every `sep`.
pub fn split_bytes(s: &[u8], sep: u8) -> (out: Vec<Vec<u8>>)
    ensures
        out.deep_view() == split_on(s@, sep),
{
    let mut out: Vec<Vec<u8>> = Vec::new();
    let mut cur: Vec<u8> = Vec::new();
    let mut i: usize = 0;
    while i < s.len()
        invariant
            i <= s.len(),
            out.deep_view().push(cur@) =~= split_on(s@.take(i as int), sep),
        decreases s.len() - i,
    {
        assert(s@.take(i + 1).drop_last() =~= s@.take(i as int));
        assert(s@.take(i + 1).last() == s@[i as int]);
        let ghost prev = out.deep_view().push(cur@);
        if s[i] == sep {
            let mut done: Vec<u8> = Vec::new();
            std::mem::swap(&mut done, &mut cur);
            assert(done.deep_view() =~= done@);
            let ghost before = out.deep_view();
            out.push(done);
            assert(out.deep_view() =~= before.push(done@));
        } else {
            cur.push(s[i]);
            assert(out.deep_view().push(cur@) =~= prev.update(prev.len() - 1, prev.last().push(s@[i as int])));
        }
        i += 1;
    }
    assert(s@.take(s.len() as int) =~= s@);
    assert(cur.deep_view() =~= cur@);
    let ghost before = out.deep_view();
    out.push(cur);
    assert(out.deep_view() =~= before.push(cur@));
    out
}

/// The lines of `s`, as `str::lines` gives them.
pub fn split_lines(s: &[u8]) -> (out: Vec<Vec<u8>>)
    ensures
        out.deep_view() == lines_of(s@),
{
    if s.len() == 0 {
        let out: Vec<Vec<u8>> = Vec::new();
        assert(out.deep_view() =~= lines_of(s@));
        return out;
    }
    let pieces = split_bytes(s, 10u8);
    proof {
        lemma_split_nonempty(s@, 10u8);
    }
    let ghost p = pieces.deep_view();
    let terminated = s[s.len() - 1] == 10u8;
    assert(s@.last() == s@[s.len() - 1]);
    let n = if terminated {
        pieces.len() - 1
    } else {
        pieces.len()
    };
    let mut out: Vec<Vec<u8>> = Vec::new();
    let mut i: usize = 0;
    while i < n
        invariant
            i <= n,
            n <= pieces@.len(),
            p == pieces.deep_view(),
            p == split_on(s@, 10u8),
            s@.len() > 0,
            terminated == (s@.last() == 10u8),
            n == if terminated {
                pieces@.len() - 1
            } else {
                pieces@.len() as int
            },
            out.deep_view() =~= lines_of(s@).take(i as int),
        decreases n - i,
    {
        let piece = &pieces[i];
        assert(piece@ == p[i as int]);
        let strip = (terminated || i + 1 < pieces.len()) && piece.len() > 0 && piece[piece.len() - 1] == 13u8;
        let mut line: Vec<u8> = Vec::new();
        let keep = if strip {
            piece.len() - 1
        } else {
            piece.len()
        };
        let mut k: usize = 0;
        while k < keep
            invariant
                k <= keep <= piece@.len(),
                line@ =~= piece@.take(k as int),
            decreases keep - k,
        {
            line.push(piece[k]);
            k += 1;
        }
        assert(piece@.last() == piece@[piece@.len() - 1]);
        assert(line@ =~= lines_of(s@)[i as int]);
        assert(line.deep_view() =~= line@);
        let ghost before = out.deep_view();
        out.push(line);
        assert(out.deep_view() =~= before.push(lines_of(s@)[i as int]));
        assert(lines_of(s@).take(i + 1) =~= lines_of(s@).take(i as int).push(lines_of(s@)[i as int]));
        i += 1;
    }
    assert(lines_of(s@).take(n as int) =~= lines_of(s@));
    out
}

/// Reads an unsigned decimal number no larger than `max`, as `str::parse`
/// does for unsigned integers.
pub fn parse_number(s: &[u8], max: u64) -> (r: Option<u64>)
    ensures
        r matches Some(v) ==> parse_unsigned(s@, max as nat) == Some(v as nat),
        r is None ==> parse_unsigned(s@, max as nat) is None,
{
    let start: usize = if s.len() > 0 && s[0] == 43u8 {
        1
    } else {
        0
    };
    let ghost d = unsigned_digits(s@);
    assert(d =~= s@.skip(start as int));
    if start == s.len() {
        return None;
    }
    let mut value: u64 = 0;
    let mut i: usize = start;
    while i < s.len()
        invariant
            start <= i <= s.len(),
            d == unsigned_digits(s@),
            d =~= s@.skip(start as int),
            value == digits_value(d.take(i - start)),
            value <= max,
            forall|q: int| 0 <= q < i - start ==> #[trigger] is_digit(d[q]),
        decreases s.len() - i,
    {
        let b = s[i];
        assert(d[i - start] == b);
        if b < 48 || b > 57 {
            assert(!is_digit(d[i - start]));
            assert(!(forall|q: int| 0 <= q < d.len() ==> #[trigger] is_digit(d[q])));
            return None;
        }
        let digit = (b - 48) as u64;
        assert(d.take(i - start + 1).drop_last() =~= d.take(i - start));
        assert(d.take(i - start + 1).last() == b);
        if digit > max || value > (max - digit) / 10 {
            proof {
                lemma_digits_prefix_monotone(d, (i - start + 1) as nat);
                if digit <= max {
                    assert(value * 10 + digit > max) by (nonlinear_arith)
                        requires
                            value > (max - digit) / 10,
                            digit <= max,
                    ;
                }
                assert(digits_value(d.take(i - start + 1)) == value * 10 + digit);
                if exists|q: int| 0 <= q < d.len() && !is_digit(#[trigger] d[q]) {
                    let q = choose|q: int| 0 <= q < d.len() && !is_digit(#[trigger] d[q]);
                    assert(!(forall|q: int| 0 <= q < d.len() ==> #[trigger] is_digit(d[q])));
                }
            }
            return None;
        }
        assert(value * 10 + digit <= max) by (nonlinear_arith)
            requires
                value <= (max - digit) / 10,
                digit <= max,
        ;
        value = value * 10 + digit;
        i += 1;
    }
    assert(d.take(s.len() - start) =~= d);
    Some(value)
}

/// A longer prefix of a digit string never has a smaller value.
proof fn lemma_digits_prefix_monotone(d: Seq<u8>, k: nat)
    requires
        k <= d.len(),
        forall|q: int| 0 <= q < k ==> #[trigger] is_digit(d[q]),
    ensures
        digits_value(d.take(k as int)) <= digits_value(d) || exists|q: int| 0 <= q < d.len() && !is_digit(#[trigger] d[q]),
    decreases d.len() - k,
{
    if k < d.len() {
        if is_digit(d[k as int]) {
            assert(d.take((k + 1) as int).drop_last() =~= d.take(k as int));
            assert(forall|q: int| 0 <= q < k + 1 ==> #[trigger] is_digit(d[q]));
            lemma_digits_prefix_monotone(d, k + 1);
        } else {
            assert(!is_digit(d[k as int]));
        }
    } else {
        assert(d.take(k as int) =~= d);
    }
}


/// Splitting at a separator that stands between two texts splits each of them.
pub proof fn lemma_split_concat(a: Seq<u8>, b: Seq<u8>, sep: u8)
    ensures
        split_on(a + seq![sep] + b, sep) == split_on(a, sep) + split_on(b, sep),
    decreases b.len(),
{
    let s = a + seq![sep] + b;
    if b.len() == 0 {
        assert(s.drop_last() =~= a);
        assert(split_on(b, sep) =~= seq![Seq::<u8>::empty()]);
        assert(split_on(s, sep) =~= split_on(a, sep) + split_on(b, sep));
    } else {
        assert(s.drop_last() =~= a + seq![sep] + b.drop_last());
        lemma_split_concat(a, b.drop_last(), sep);
        lemma_split_nonempty(b.drop_last(), sep);
        lemma_split_nonempty(a, sep);
        let x = split_on(a, sep);
        let y = split_on(b.drop_last(), sep);
        assert(s.last() == b.last());
        if b.last() == sep {
            assert(split_on(s, sep) =~= (x + y).push(Seq::empty()));
            assert((x + y).push(Seq::<u8>::empty()) =~= x + y.push(Seq::empty()));
        } else {
            assert((x + y).update((x + y).len() - 1, (x + y).last().push(b.last())) =~= x + y.update(
                y.len() - 1,
                y.last().push(b.last()),
            ));
        }
    }
}

/// Text without the separator is a single piece.
pub proof fn lemma_split_none(a: Seq<u8>, sep: u8)
    requires
        forall|i: int| 0 <= i < a.len() ==> #[trigger] a[i] != sep,
    ensures
        split_on(a, sep) == seq![a],
    decreases a.len(),
{
    if a.len() > 0 {
        lemma_split_none(a.drop_last(), sep);
        assert(a.last() == a[a.len() - 1]);
        assert(a.drop_last().push(a.last()) =~= a);
        assert(seq![a.drop_last()].update(0, a.drop_last().push(a.last())) =~= seq![a]);
    } else {
        assert(a =~= Seq::<u8>::empty());
    }
}

} // verus!
