//! Facts about policy texts: the text that an export writes reads back, line
//! by line and field by field, as the rows it was written from.
use vstd::prelude::*;

use crate::optimal::{decimal, digit_char, ids_text, row_text, rows_text, seed_row, seed_rows};
use crate::policy::row_ids;
use crate::text::{
    digits_value, is_digit, lemma_split_concat, lemma_split_none, lines_of, parse_unsigned, split_on, strip_cr,
    unsigned_digits,
};

verus! {

/// The bytes of a text of ASCII characters.
pub open spec fn ascii(s: Seq<char>) -> Seq<u8> {
    Seq::new(s.len(), |i: int| s[i] as u8)
}

/// Characters a policy text is made of: digits, commas, semicolons and line
/// feeds.
pub open spec fn plain_char(c: char) -> bool {
    ('0' <= c <= '9') || c == ',' || c == ';' || c == '\n'
}

pub open spec fn plain(s: Seq<char>) -> bool {
    forall|i: int| 0 <= i < s.len() ==> plain_char(#[trigger] s[i])
}

pub proof fn lemma_ascii_concat(a: Seq<char>, b: Seq<char>)
    ensures
        ascii(a + b) == ascii(a) + ascii(b),
{
    assert(ascii(a + b) =~= ascii(a) + ascii(b));
}

pub proof fn lemma_plain_concat(a: Seq<char>, b: Seq<char>)
    requires
        plain(a),
        plain(b),
    ensures
        plain(a + b),
{
    assert forall|i: int| 0 <= i < (a + b).len() implies plain_char(#[trigger] (a + b)[i]) by {
        if i < a.len() {
            assert((a + b)[i] == a[i]);
        } else {
            assert((a + b)[i] == b[i - a.len()]);
        }
    }
}

proof fn lemma_digit_char(d: nat)
    requires
        d < 10,
    ensures
        digit_char(d) as u8 == 48 + d,
        '0' <= digit_char(d) <= '9',
{
}

/// Decimal notation is made of digits and reads back as its number.
pub proof fn lemma_decimal(v: nat)
    ensures
        decimal(v).len() >= 1,
        forall|i: int| 0 <= i < decimal(v).len() ==> '0' <= #[trigger] decimal(v)[i] <= '9',
        forall|i: int| 0 <= i < decimal(v).len() ==> is_digit(#[trigger] ascii(decimal(v))[i]),
        digits_value(ascii(decimal(v))) == v,
        plain(decimal(v)),
    decreases v,
{
    if v < 10 {
        lemma_digit_char(v);
        let b = ascii(decimal(v));
        assert(b.drop_last() =~= Seq::<u8>::empty());
        assert(b.last() == 48 + v);
        assert(digits_value(b) == digits_value(b.drop_last()) * 10 + (b.last() - 48) as nat);
    } else {
        lemma_decimal(v / 10);
        lemma_digit_char(v % 10);
        let d = decimal(v / 10);
        assert(decimal(v) == d.push(digit_char(v % 10)));
        assert forall|i: int| 0 <= i < decimal(v).len() implies '0' <= #[trigger] decimal(v)[i] <= '9' by {
            if i < d.len() {
                assert(decimal(v)[i] == d[i]);
            }
        }
        let b = ascii(decimal(v));
        assert(b.drop_last() =~= ascii(d));
        assert(b.last() == 48 + v % 10);
        assert(digits_value(b) == digits_value(b.drop_last()) * 10 + (b.last() - 48) as nat);
        assert(digits_value(b) == (v / 10) * 10 + v % 10);
    }
}

/// A number's decimal notation parses back to it.
pub proof fn lemma_parse_decimal(v: nat, max: nat)
    requires
        v <= max,
    ensures
        parse_unsigned(ascii(decimal(v)), max) == Some(v),
{
    lemma_decimal(v);
    let b = ascii(decimal(v));
    assert(b[0] == decimal(v)[0] as u8);
    assert(unsigned_digits(b) == b);
}

/// A text of digits and commas.
pub proof fn lemma_ids_text_plain(ids: Seq<u16>)
    ensures
        plain(ids_text(ids)),
        forall|i: int| 0 <= i < ids_text(ids).len() ==> #[trigger] ids_text(ids)[i] != ';' && ids_text(ids)[i] != '\n',
    decreases ids.len(),
{
    if ids.len() == 1 {
        lemma_decimal(ids[0] as nat);
    } else if ids.len() > 1 {
        lemma_ids_text_plain(ids.drop_last());
        lemma_decimal(ids.last() as nat);
        lemma_plain_concat(ids_text(ids.drop_last()), seq![',']);
        lemma_plain_concat(ids_text(ids.drop_last()) + seq![','], decimal(ids.last() as nat));
        let x = ids_text(ids.drop_last());
        let d = decimal(ids.last() as nat);
        assert forall|i: int| 0 <= i < ids_text(ids).len() implies #[trigger] ids_text(ids)[i] != ';' && ids_text(ids)[i]
            != '\n' by {
            if i < x.len() {
                assert(ids_text(ids)[i] == x[i]);
            } else if i > x.len() {
                assert(ids_text(ids)[i] == d[i - x.len() - 1]);
            }
        }
    }
}

/// The comma-separated pieces of an id list are the ids in decimal.
pub proof fn lemma_split_ids(ids: Seq<u16>)
    requires
        ids.len() >= 1,
    ensures
        split_on(ascii(ids_text(ids)), 44u8) == Seq::new(ids.len(), |i: int| ascii(decimal(ids[i] as nat))),
        row_ids(split_on(ascii(ids_text(ids)), 44u8)) == ids,
        forall|i: int| 0 <= i < ids.len() ==> #[trigger] parse_unsigned(split_on(ascii(ids_text(ids)), 44u8)[i], 65535) is Some,
    decreases ids.len(),
{
    let want = Seq::new(ids.len(), |i: int| ascii(decimal(ids[i] as nat)));
    if ids.len() == 1 {
        lemma_decimal(ids[0] as nat);
        lemma_split_none(ascii(decimal(ids[0] as nat)), 44u8);
        assert(split_on(ascii(ids_text(ids)), 44u8) =~= want);
    } else {
        lemma_split_ids(ids.drop_last());
        lemma_decimal(ids.last() as nat);
        let x = ascii(ids_text(ids.drop_last()));
        let d = ascii(decimal(ids.last() as nat));
        lemma_ascii_concat(ids_text(ids.drop_last()), seq![',']);
        lemma_ascii_concat(ids_text(ids.drop_last()) + seq![','], decimal(ids.last() as nat));
        assert(ascii(seq![',']) =~= seq![44u8]);
        assert(ascii(ids_text(ids)) == x + seq![44u8] + d);
        lemma_split_concat(x, d, 44u8);
        lemma_split_none(d, 44u8);
        assert(split_on(ascii(ids_text(ids)), 44u8) =~= want);
    }
    assert forall|i: int| 0 <= i < ids.len() implies #[trigger] parse_unsigned(split_on(ascii(ids_text(ids)), 44u8)[i], 65535)
        == Some(ids[i] as nat) by {
        lemma_parse_decimal(ids[i] as nat, 65535);
    }
    assert(row_ids(split_on(ascii(ids_text(ids)), 44u8)) =~= ids);
}

/// A policy line reads back as its state and guess.
pub proof fn lemma_seed_row_text(ids: Seq<u16>, guess: u16, worst: nat, n: nat)
    requires
        ids.len() >= 1,
        (guess as nat) < n,
    ensures
        seed_row(ascii(row_text(ids, guess, worst)), n) == Ok::<(Seq<u16>, u16), crate::optimal::SearchError>((ids, guess)),
        plain(row_text(ids, guess, worst)),
        forall|i: int| 0 <= i < row_text(ids, guess, worst).len() ==> #[trigger] row_text(ids, guess, worst)[i] != '\n',
        row_text(ids, guess, worst).len() >= 1,
        '0' <= row_text(ids, guess, worst).last() <= '9',
{
    let a = ids_text(ids);
    let g = decimal(guess as nat);
    let w = decimal(worst);
    lemma_ids_text_plain(ids);
    lemma_decimal(guess as nat);
    lemma_decimal(worst);
    lemma_split_ids(ids);
    assert(ascii(seq![';']) =~= seq![59u8]);
    assert(ascii(row_text(ids, guess, worst)) =~= ascii(a) + seq![59u8] + ascii(g) + seq![59u8] + ascii(w));
    lemma_split_concat(ascii(a) + seq![59u8] + ascii(g), ascii(w), 59u8);
    lemma_split_concat(ascii(a), ascii(g), 59u8);
    assert forall|i: int| 0 <= i < ascii(a).len() implies #[trigger] ascii(a)[i] != 59u8 by {
        assert(a[i] != ';');
    }
    lemma_split_none(ascii(a), 59u8);
    lemma_split_none(ascii(g), 59u8);
    lemma_split_none(ascii(w), 59u8);
    let fields = split_on(ascii(row_text(ids, guess, worst)), 59u8);
    assert(fields =~= seq![ascii(a), ascii(g), ascii(w)]);
    lemma_parse_decimal(guess as nat, 65535);
    lemma_plain_concat(a, seq![';']);
    lemma_plain_concat(a + seq![';'], g);
    lemma_plain_concat(a + seq![';'] + g, seq![';']);
    lemma_plain_concat(a + seq![';'] + g + seq![';'], w);
    let r = row_text(ids, guess, worst);
    assert forall|i: int| 0 <= i < r.len() implies #[trigger] r[i] != '\n' by {
        if i < a.len() {
            assert(r[i] == a[i]);
        } else if i == a.len() || i == a.len() + 1 + g.len() {
        } else if i < a.len() + 1 + g.len() {
            assert(r[i] == g[i - a.len() - 1]);
        } else {
            assert(r[i] == w[i - a.len() - 2 - g.len()]);
        }
    }
    assert(r.last() == w.last());
}


/// The line of row `i` of `ks`.
pub open spec fn row_line(ks: Seq<Seq<u16>>, rows: Map<Seq<u16>, (u16, nat)>, i: int) -> Seq<u8> {
    ascii(row_text(ks[i], rows[ks[i]].0, rows[ks[i]].1))
}

/// Rows a policy text can be written from: states of at least one id whose
/// guesses lie below `n`.
pub open spec fn writable_rows(ks: Seq<Seq<u16>>, rows: Map<Seq<u16>, (u16, nat)>, n: nat) -> bool {
    forall|i: int| 0 <= i < ks.len() ==> (#[trigger] ks[i]).len() >= 1 && rows.contains_key(ks[i]) && (rows[ks[i]].0 as nat)
        < n
}

proof fn lemma_rows_pieces(ks: Seq<Seq<u16>>, rows: Map<Seq<u16>, (u16, nat)>, n: nat, k: int)
    requires
        0 <= k <= ks.len(),
        writable_rows(ks, rows, n),
    ensures
        split_on(ascii(rows_text(ks.take(k), rows)), 10u8) == Seq::new(k as nat, |i: int| row_line(ks, rows, i)) + seq![
            Seq::<u8>::empty(),
        ],
        plain(rows_text(ks.take(k), rows)),
    decreases k,
{
    let want = Seq::new(k as nat, |i: int| row_line(ks, rows, i));
    if k == 0 {
        assert(ks.take(0) =~= Seq::<Seq<u16>>::empty());
        assert(ascii(rows_text(ks.take(k), rows)) =~= Seq::<u8>::empty());
        assert(want + seq![Seq::<u8>::empty()] =~= seq![Seq::<u8>::empty()]);
        assert(plain(rows_text(ks.take(k), rows)));
    } else {
        lemma_rows_pieces(ks, rows, n, k - 1);
        let prev = ks.take(k - 1);
        assert(ks.take(k).drop_last() =~= prev);
        assert(ks.take(k).last() == ks[k - 1]);
        let key = ks[k - 1];
        lemma_seed_row_text(key, rows[key].0, rows[key].1, n);
        let r = row_text(key, rows[key].0, rows[key].1);
        let t = rows_text(prev, rows);
        assert(rows_text(ks.take(k), rows) == t + r + seq!['\n']);
        lemma_ascii_concat(t + r, seq!['\n']);
        lemma_ascii_concat(t, r);
        assert(ascii(seq!['\n']) =~= seq![10u8]);
        let line = ascii(r);
        assert(line == row_line(ks, rows, k - 1));
        assert forall|i: int| 0 <= i < line.len() implies #[trigger] line[i] != 10u8 by {
            assert(r[i] != '\n');
        }
        lemma_split_none(line, 10u8);
        lemma_plain_concat(t, r);
        lemma_plain_concat(t + r, seq!['\n']);
        if k == 1 {
            assert(ascii(t) =~= Seq::<u8>::empty());
            assert(ascii(rows_text(ks.take(k), rows)) =~= line + seq![10u8] + Seq::<u8>::empty());
            lemma_split_concat(line, Seq::<u8>::empty(), 10u8);
            assert(split_on(Seq::<u8>::empty(), 10u8) =~= seq![Seq::<u8>::empty()]);
            assert(split_on(ascii(rows_text(ks.take(k), rows)), 10u8) =~= want + seq![Seq::<u8>::empty()]);
        } else {
            let prev2 = ks.take(k - 2);
            assert(prev.drop_last() =~= prev2);
            assert(prev.last() == ks[k - 2]);
            let key2 = ks[k - 2];
            let r2 = row_text(key2, rows[key2].0, rows[key2].1);
            let x = ascii(rows_text(prev2, rows) + r2);
            assert(t == rows_text(prev2, rows) + r2 + seq!['\n']);
            lemma_ascii_concat(rows_text(prev2, rows) + r2, seq!['\n']);
            assert(ascii(t) =~= x + seq![10u8] + Seq::<u8>::empty());
            lemma_split_concat(x, Seq::<u8>::empty(), 10u8);
            assert(split_on(Seq::<u8>::empty(), 10u8) =~= seq![Seq::<u8>::empty()]);
            let before = Seq::new((k - 1) as nat, |i: int| row_line(ks, rows, i));
            assert(split_on(x, 10u8) + seq![Seq::<u8>::empty()] == before + seq![Seq::<u8>::empty()]);
            assert(split_on(x, 10u8) =~= (split_on(x, 10u8) + seq![Seq::<u8>::empty()]).drop_last());
            assert(split_on(x, 10u8) =~= before);
            assert(ascii(rows_text(ks.take(k), rows)) =~= x + seq![10u8] + (line + seq![10u8] + Seq::<u8>::empty()));
            lemma_split_concat(x, line + seq![10u8] + Seq::<u8>::empty(), 10u8);
            lemma_split_concat(line, Seq::<u8>::empty(), 10u8);
            assert(split_on(ascii(rows_text(ks.take(k), rows)), 10u8) =~= want + seq![Seq::<u8>::empty()]);
        }
    }
}

/// The lines of a policy text are its rows' lines.
pub proof fn lemma_rows_lines(ks: Seq<Seq<u16>>, rows: Map<Seq<u16>, (u16, nat)>, n: nat)
    requires
        ks.len() >= 1,
        writable_rows(ks, rows, n),
    ensures
        lines_of(ascii(rows_text(ks, rows))) == Seq::new(ks.len(), |i: int| row_line(ks, rows, i)),
        plain(rows_text(ks, rows)),
{
    lemma_rows_pieces(ks, rows, n, ks.len() as int);
    assert(ks.take(ks.len() as int) =~= ks);
    let s = ascii(rows_text(ks, rows));
    let last = ks.last();
    assert(ks.drop_last().push(last) =~= ks);
    lemma_seed_row_text(last, rows[last].0, rows[last].1, n);
    assert(ks[ks.len() - 1] == last);
    assert(rows_text(ks, rows) == rows_text(ks.drop_last(), rows) + row_text(last, rows[last].0, rows[last].1) + seq![
        '\n',
    ]);
    assert(s.len() > 0);
    assert(s.last() == 10u8);
    assert forall|i: int| 0 <= i < ks.len() implies strip_cr(#[trigger] row_line(ks, rows, i)) == row_line(ks, rows, i) by {
        let key = ks[i];
        lemma_seed_row_text(key, rows[key].0, rows[key].1, n);
        let r = row_text(key, rows[key].0, rows[key].1);
        assert(row_line(ks, rows, i).last() == r.last() as u8);
    }
    assert(lines_of(s) =~= Seq::new(ks.len(), |i: int| row_line(ks, rows, i)));
}

/// The guesses that the first `k` rows give.
pub open spec fn row_guesses(ks: Seq<Seq<u16>>, rows: Map<Seq<u16>, (u16, nat)>, k: int) -> Map<Seq<u16>, u16> {
    Map::new(|key: Seq<u16>| exists|j: int| 0 <= j < k && ks[j] == key, |key: Seq<u16>| rows[key].0)
}

/// Reading the rows' lines gives the rows' guesses.
pub proof fn lemma_seed_rows_lines(ks: Seq<Seq<u16>>, rows: Map<Seq<u16>, (u16, nat)>, n: nat, k: int)
    requires
        0 <= k <= ks.len(),
        writable_rows(ks, rows, n),
    ensures
        seed_rows(Seq::new(ks.len(), |i: int| row_line(ks, rows, i)).take(k), n) == Ok::<
            Map<Seq<u16>, u16>,
            crate::optimal::SearchError,
        >(row_guesses(ks, rows, k)),
    decreases k,
{
    let lines = Seq::new(ks.len(), |i: int| row_line(ks, rows, i));
    if k == 0 {
        assert(lines.take(0) =~= Seq::<Seq<u8>>::empty());
        assert(row_guesses(ks, rows, 0) =~= Map::<Seq<u16>, u16>::empty());
    } else {
        lemma_seed_rows_lines(ks, rows, n, k - 1);
        assert(lines.take(k).drop_last() =~= lines.take(k - 1));
        assert(lines.take(k).last() == row_line(ks, rows, k - 1));
        let key = ks[k - 1];
        lemma_seed_row_text(key, rows[key].0, rows[key].1, n);
        assert(row_guesses(ks, rows, k - 1).insert(key, rows[key].0) =~= row_guesses(ks, rows, k));
    }
}

} // verus!
