//! Colour names and the per-slot feedback marks shown for a record.
use vstd::prelude::*;

use crate::judge::count_color;

verus! {

/// Number of gem colours of the real game.
pub const COLORS: usize = 6;

/// No mark on this slot.
pub const MARK_UNKNOWN: u8 = 0;

/// Right colour in the right place.
pub const MARK_EXACT: u8 = 1;

/// Right colour in the wrong place.
pub const MARK_PARTIAL: u8 = 2;

pub open spec fn color_name(idx: u8) -> Seq<char> {
    if idx == 0 {
        "红"@
    } else if idx == 1 {
        "蓝"@
    } else if idx == 2 {
        "紫"@
    } else if idx == 3 {
        "橙"@
    } else if idx == 4 {
        "黄"@
    } else {
        "绿"@
    }
}

/// Name of colour `idx`.
pub fn name(idx: u8) -> (s: &'static str)
    requires
        idx < 6,
    ensures
        s@ == color_name(idx),
{
    match idx {
        0 => "红",
        1 => "蓝",
        2 => "紫",
        3 => "橙",
        4 => "黄",
        _ => "绿",
    }
}

pub open spec fn mark_text(mark: u8) -> Seq<char> {
    if mark == MARK_EXACT {
        "蓝标:宝石种类和位置都对"@
    } else if mark == MARK_PARTIAL {
        "金标:种类对但位置错"@
    } else {
        "问号:此槽无反馈标"@
    }
}

/// The mark a click turns `mark` into: unknown, then exact, then partial,
/// then unknown again.
pub fn next_mark(mark: u8) -> (m: u8)
    requires
        mark < 3,
    ensures
        m == (mark + 1) % 3,
{
    (mark + 1) % 3
}

/// Tooltip that explains a mark.
pub fn mark_tip(mark: u8) -> (s: &'static str)
    ensures
        s@ == mark_text(mark),
{
    if mark == MARK_EXACT {
        "蓝标:宝石种类和位置都对"
    } else if mark == MARK_PARTIAL {
        "金标:种类对但位置错"
    } else {
        "问号:此槽无反馈标"
    }
}

/// Marks of a row with `exact` exact and `partial` partial marks over
/// `slots` slots: exact marks first, then partial ones, then blanks; marks
/// beyond the last slot are dropped.
pub open spec fn marks_spec(exact: nat, partial: nat, slots: nat) -> Seq<u8> {
    Seq::new(
        slots,
        |i: int|
            if i < exact {
                MARK_EXACT
            } else if i < exact + partial {
                MARK_PARTIAL
            } else {
                MARK_UNKNOWN
            },
    )
}

/// Per-slot marks from the two counts.
pub fn marks_from_counts(exact: u8, partial: u8, slots: usize) -> (marks: Vec<u8>)
    ensures
        marks@ == marks_spec(exact as nat, partial as nat, slots as nat),
{
    let mut marks: Vec<u8> = Vec::new();
    let mut i: usize = 0;
    while i < slots
        invariant
            i <= slots,
            marks@ =~= marks_spec(exact as nat, partial as nat, slots as nat).take(i as int),
        decreases slots - i,
    {
        let m = if i < exact as usize {
            MARK_EXACT
        } else if i < exact as usize + partial as usize {
            MARK_PARTIAL
        } else {
            MARK_UNKNOWN
        };
        marks.push(m);
        i += 1;
    }
    marks
}

/// Number of exact and of partial marks, each as a byte.
pub fn counts_from_marks(marks: &[u8]) -> (r: (u8, u8))
    ensures
        r.0 == count_color(marks@, MARK_EXACT as int) as u8,
        r.1 == count_color(marks@, MARK_PARTIAL as int) as u8,
{
    let mut e: usize = 0;
    let mut p: usize = 0;
    let mut i: usize = 0;
    while i < marks.len()
        invariant
            i <= marks@.len(),
            e == count_color(marks@.take(i as int), MARK_EXACT as int),
            p == count_color(marks@.take(i as int), MARK_PARTIAL as int),
            e + p <= i,
        decreases marks@.len() - i,
    {
        assert(marks@.take(i + 1).drop_last() =~= marks@.take(i as int));
        if marks[i] == MARK_EXACT {
            e += 1;
        } else if marks[i] == MARK_PARTIAL {
            p += 1;
        }
        i += 1;
    }
    assert(marks@.take(marks@.len() as int) =~= marks@);
    (e as u8, p as u8)
}

proof fn lemma_count_marks(exact: nat, partial: nat, slots: nat, k: nat)
    requires
        k <= slots,
    ensures
        count_color(marks_spec(exact, partial, slots).take(k as int), MARK_EXACT as int) == if k
            <= exact {
            k
        } else {
            exact
        },
        count_color(marks_spec(exact, partial, slots).take(k as int), MARK_PARTIAL as int) == if k
            <= exact {
            0
        } else if k <= exact + partial {
            (k - exact) as nat
        } else {
            partial
        },
    decreases k,
{
    if k > 0 {
        let m = marks_spec(exact, partial, slots);
        assert(m.take(k as int).drop_last() =~= m.take(k - 1));
        lemma_count_marks(exact, partial, slots, (k - 1) as nat);
    }
}

/// Reading the counts back from the marks built from them gives the counts,
/// whenever they fit in the slots.
pub proof fn lemma_marks_round_trip(exact: u8, partial: u8, slots: nat)
    requires
        exact + partial <= slots,
    ensures
        count_color(marks_spec(exact as nat, partial as nat, slots), MARK_EXACT as int) == exact,
        count_color(marks_spec(exact as nat, partial as nat, slots), MARK_PARTIAL as int) == partial,
{
    lemma_count_marks(exact as nat, partial as nat, slots, slots);
    assert(marks_spec(exact as nat, partial as nat, slots).take(slots as int) =~= marks_spec(
        exact as nat,
        partial as nat,
        slots,
    ));
}

/// The number of marks of a kind is how often it occurs in the marks taken
/// as a multiset.
proof fn lemma_count_multiset(s: Seq<u8>, col: u8)
    ensures
        count_color(s, col as int) == s.to_multiset().count(col),
    decreases s.len(),
{
    broadcast use vstd::seq_lib::group_to_multiset_ensures;

    if s.len() == 0 {
        assert(s.to_multiset() =~= vstd::multiset::Multiset::empty());
    } else {
        lemma_count_multiset(s.drop_last(), col);
        assert(s =~= s.drop_last().push(s.last()));
        assert(s.to_multiset() =~= s.drop_last().to_multiset().insert(s.last()));
    }
}

/// The counts read from marks do not depend on the order of the marks.
pub proof fn lemma_counts_ignore_order(a: Seq<u8>, b: Seq<u8>)
    requires
        a.to_multiset() == b.to_multiset(),
    ensures
        count_color(a, MARK_EXACT as int) == count_color(b, MARK_EXACT as int),
        count_color(a, MARK_PARTIAL as int) == count_color(b, MARK_PARTIAL as int),
{
    lemma_count_multiset(a, MARK_EXACT);
    lemma_count_multiset(b, MARK_EXACT);
    lemma_count_multiset(a, MARK_PARTIAL);
    lemma_count_multiset(b, MARK_PARTIAL);
}

} // verus!
