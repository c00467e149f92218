//! Offline policies for the default game: a table from candidate sets to the
//! guess to play and the number of submissions it guarantees, its text
//! format, lookup, and an independent replay of every answer.
use vstd::prelude::*;
use vstd::relations::{sorted_by, total_ordering};
use vstd::string::StringSliceAdditionalSpecFns;

use crate::judge::{feedback, judge};
use crate::keymap::KeyMap;
use crate::model::Settings;
use crate::solver::{enumerate_space, odometer_code, odometer_digits, space_of};
use crate::text::{lines_of, parse_number, parse_unsigned, split_bytes, split_lines, split_on};

verus! {

/// Which precomputed policy to follow.
#[derive(Clone, Copy, Debug, PartialEq, Eq, Structural)]
pub enum StrategyMode {
    /// Smallest expected number of submissions.
    Average,
    /// Smallest worst case first.
    Worst,
}

impl Default for StrategyMode {
    fn default() -> (m: Self)
        ensures
            m == StrategyMode::Average,
    {
        StrategyMode::Average
    }
}

/// What a policy tells the player to do next.
#[derive(Debug, Clone, PartialEq, Eq)]
pub enum PolicyMove {
    /// Only one candidate is left: submit it.
    Answer(Vec<u8>),
    /// Play `guess`; the policy finishes within `steps` submissions,
    /// counting this guess and the final submission.
    Guess { guess: Vec<u8>, steps: usize },
}

/// Mathematical form of a `PolicyMove`.
pub enum MoveView {
    Answer(Seq<u8>),
    Guess(Seq<u8>, nat),
}

impl PolicyMove {
    pub open spec fn view(&self) -> MoveView {
        match self {
            PolicyMove::Answer(a) => MoveView::Answer(a@),
            PolicyMove::Guess { guess, steps } => MoveView::Guess(guess@, *steps as nat),
        }
    }
}

/// Policy table: sorted candidate ids to (guess id, guaranteed steps).
pub type PolicyTable = KeyMap<(u16, usize)>;

/// Reasons a policy text is rejected.
#[derive(Debug, Clone, Copy, PartialEq, Eq, Structural)]
pub enum PolicyError {
    InvalidRow,
    InvalidCandidate,
    InvalidGuess,
    InvalidSteps,
    InvalidValues,
    DuplicateState,
    MissingBranch,
    InconsistentGuarantee,
    GuaranteeExceeded,
    Unsolved,
}

pub open spec fn error_text(e: PolicyError) -> Seq<char> {
    match e {
        PolicyError::InvalidRow => "invalid policy row"@,
        PolicyError::InvalidCandidate => "invalid candidate"@,
        PolicyError::InvalidGuess => "invalid guess"@,
        PolicyError::InvalidSteps => "invalid steps"@,
        PolicyError::InvalidValues => "invalid policy values"@,
        PolicyError::DuplicateState => "duplicate policy state"@,
        PolicyError::MissingBranch => "missing policy branch"@,
        PolicyError::InconsistentGuarantee => "inconsistent step guarantee"@,
        PolicyError::GuaranteeExceeded => "step guarantee exceeded"@,
        PolicyError::Unsolved => "policy does not solve every answer"@,
    }
}

impl PolicyError {
    pub fn message(&self) -> (s: &'static str)
        ensures
            s@ == error_text(*self),
    {
        match self {
            PolicyError::InvalidRow => "invalid policy row",
            PolicyError::InvalidCandidate => "invalid candidate",
            PolicyError::InvalidGuess => "invalid guess",
            PolicyError::InvalidSteps => "invalid steps",
            PolicyError::InvalidValues => "invalid policy values",
            PolicyError::DuplicateState => "duplicate policy state",
            PolicyError::MissingBranch => "missing policy branch",
            PolicyError::InconsistentGuarantee => "inconsistent step guarantee",
            PolicyError::GuaranteeExceeded => "step guarantee exceeded",
            PolicyError::Unsolved => "policy does not solve every answer",
        }
    }
}

/// Base-6 value of a code, first slot most significant.
pub open spec fn code_value(code: Seq<u8>) -> nat
    decreases code.len(),
{
    if code.len() == 0 {
        0
    } else {
        code_value(code.drop_last()) * 6 + code.last() as nat
    }
}

/// A code of the default game: four slots, colours below six.
pub open spec fn default_code(code: Seq<u8>) -> bool {
    code.len() == 4 && forall|i: int| 0 <= i < 4 ==> #[trigger] code[i] < 6
}

proof fn lemma_code_value_bound(code: Seq<u8>, n: nat)
    requires
        code.len() == n,
        n <= 4,
        forall|i: int| 0 <= i < code.len() ==> #[trigger] code[i] < 6,
    ensures
        code_value(code) < crate::solver::power(6, n),
    decreases n,
{
    if n > 0 {
        let p = code.drop_last();
        assert forall|i: int| 0 <= i < p.len() implies #[trigger] p[i] < 6 by {
            assert(p[i] == code[i]);
        }
        lemma_code_value_bound(p, (n - 1) as nat);
        let v = code_value(p);
        let pw = crate::solver::power(6, (n - 1) as nat);
        assert(code.last() == code[n - 1]);
        assert(v * 6 + code.last() < 6 * pw) by (nonlinear_arith)
            requires
                v < pw,
                code.last() < 6,
        ;
    }
}

/// Base-6 id of a code of the default game.
fn code_id(code: &[u8]) -> (id: u16)
    requires
        code@.len() <= 4,
        forall|i: int| 0 <= i < code@.len() ==> #[trigger] code@[i] < 6,
    ensures
        id == code_value(code@),
        id < 1296,
{
    let mut id: u16 = 0;
    let mut i: usize = 0;
    while i < code.len()
        invariant
            i <= code@.len() <= 4,
            forall|q: int| 0 <= q < code@.len() ==> #[trigger] code@[q] < 6,
            id == code_value(code@.take(i as int)),
            id < crate::solver::power(6, i as nat),
        decreases code@.len() - i,
    {
        let ghost t = code@.take((i + 1) as int);
        assert(t.drop_last() =~= code@.take(i as int));
        assert(t.last() == code@[i as int]);
        proof {
            assert forall|q: int| 0 <= q < t.len() implies #[trigger] t[q] < 6 by {
                assert(t[q] == code@[q]);
            }
            lemma_code_value_bound(t, (i + 1) as nat);
            assert(crate::solver::power(6, (i + 1) as nat) <= 1296) by {
                crate::solver::lemma_space_size_bound(6, (i + 1) as nat);
                reveal_with_fuel(crate::solver::power, 5);
                if i + 1 < 4 {
                    assert(crate::solver::power(6, (i + 1) as nat) <= 216);
                }
            }
        }
        id = id * 6 + code[i] as u16;
        i += 1;
    }
    assert(code@.take(code@.len() as int) =~= code@);
    proof {
        assert(crate::solver::power(6, code@.len() as nat) <= 1296) by {
            reveal_with_fuel(crate::solver::power, 5);
        }
    }
    id
}

/// The four base-6 digits of `id`, first slot most significant.
fn decode(id: u16) -> (code: Vec<u8>)
    ensures
        code@ == odometer_code(id as nat, 6, 4),
{
    odometer_digits(id as usize, 6, 4)
}

/// Reading a default-game code as a policy id and writing the id back as
/// a code gives the code again.
pub proof fn lemma_code_id_round_trip(code: Seq<u8>)
    requires
        default_code(code),
    ensures
        code_value(code) < 1296,
        odometer_code(code_value(code), 6, 4) == code,
{
    reveal_with_fuel(code_value, 5);
    reveal_with_fuel(crate::solver::power, 5);
    let (a, b, c, d) = (code[0] as int, code[1] as int, code[2] as int, code[3] as int);
    assert(code.drop_last().drop_last().drop_last().drop_last() =~= Seq::<u8>::empty());
    assert(code_value(code) == ((a * 6 + b) * 6 + c) * 6 + d);
    let v = code_value(code) as int;
    assert(v / 216 == a && v / 36 % 6 == b && v / 6 % 6 == c && v % 6 == d) by (nonlinear_arith)
        requires
            v == ((a * 6 + b) * 6 + c) * 6 + d,
            0 <= a < 6,
            0 <= b < 6,
            0 <= c < 6,
            0 <= d < 6,
    ;
    assert(crate::solver::power(6, 3) == 216 && crate::solver::power(6, 2) == 36 && crate::solver::power(6, 1) == 6
        && crate::solver::power(6, 0) == 1);
    let o = odometer_code(code_value(code), 6, 4);
    assert(o[0] == ((v / 216) % 6) as u8);
    assert(o[1] == ((v / 36) % 6) as u8);
    assert(o[2] == ((v / 6) % 6) as u8);
    assert(o[3] == ((v / 1) % 6) as u8);
    assert(o =~= code);
}

/// Writing a policy id as a code and reading it back gives the id again.
pub proof fn lemma_id_code_round_trip(id: nat)
    requires
        id < 1296,
    ensures
        default_code(odometer_code(id, 6, 4)),
        code_value(odometer_code(id, 6, 4)) == id,
{
    reveal_with_fuel(code_value, 5);
    reveal_with_fuel(crate::solver::power, 5);
    let code = odometer_code(id, 6, 4);
    let i = id as int;
    assert(crate::solver::power(6, 3) == 216 && crate::solver::power(6, 2) == 36 && crate::solver::power(6, 1) == 6
        && crate::solver::power(6, 0) == 1);
    assert(code[0] == ((i / 216) % 6) as u8);
    assert(code[1] == ((i / 36) % 6) as u8);
    assert(code[2] == ((i / 6) % 6) as u8);
    assert(code[3] == ((i / 1) % 6) as u8);
    assert(code[0] as int == i / 216 % 6 && code[1] as int == i / 36 % 6 && code[2] as int == i / 6 % 6 && code[3] as int
        == i % 6);
    assert(code.drop_last().drop_last().drop_last().drop_last() =~= Seq::<u8>::empty());
    assert(((i / 216 % 6 * 6 + i / 36 % 6) * 6 + i / 6 % 6) * 6 + i % 6 == i) by (nonlinear_arith)
        requires
            0 <= i < 1296,
    ;
}

pub open spec fn id_le(a: u16, b: u16) -> bool {
    a <= b
}

/// The ids of a list of codes.
pub open spec fn code_ids(cands: Seq<Seq<u8>>) -> Seq<u16> {
    Seq::new(cands.len(), |i: int| code_value(cands[i]) as u16)
}

/// The key under which a policy stores a candidate list: its ids, sorted.
pub open spec fn policy_key(cands: Seq<Seq<u8>>) -> Seq<u16> {
    code_ids(cands).sort_by(|a: u16, b: u16| id_le(a, b))
}

proof fn lemma_id_le_total()
    ensures
        total_ordering(|a: u16, b: u16| id_le(a, b)),
{
}

pub open spec fn ascending(s: Seq<u16>) -> bool {
    forall|a: int, b: int| 0 <= a < b < s.len() ==> #[trigger] s[a] <= #[trigger] s[b]
}

/// Inserts `x` into the ascending `v`, keeping it ascending.
pub(crate) fn insert_sorted(v: &mut Vec<u16>, x: u16)
    requires
        ascending(old(v)@),
    ensures
        ascending(final(v)@),
        final(v)@.to_multiset() == old(v)@.to_multiset().insert(x),
{
    let mut pos = v.len();
    while pos > 0 && v[pos - 1] > x
        invariant
            pos <= v@.len(),
            v@ == old(v)@,
            ascending(v@),
            forall|q: int| pos <= q < v@.len() ==> #[trigger] v@[q] > x,
        decreases pos,
    {
        pos -= 1;
    }
    let ghost old_v = v@;
    v.insert(pos, x);
    proof {
        assert(v@ == old_v.insert(pos as int, x));
        assert forall|a: int, b: int| 0 <= a < b < v@.len() implies #[trigger] v@[a] <= #[trigger] v@[b] by {
            if a < pos && b < pos {
                assert(old_v[a] <= old_v[b]);
            } else if a < pos && b == pos {
                if a < pos - 1 {
                    assert(old_v[a] <= old_v[pos - 1]);
                }
            } else if a < pos && b > pos {
                assert(old_v[a] <= old_v[b - 1]);
            } else if a == pos {
            } else {
                assert(old_v[a - 1] <= old_v[b - 1]);
            }
        }
        assert(v@.remove(pos as int) =~= old_v);
        vstd::seq_lib::to_multiset_remove(v@, pos as int);
        v@.to_multiset_ensures();
        assert(v@.contains(x)) by {
            assert(v@[pos as int] == x);
        }
        assert(v@.to_multiset() =~= old_v.to_multiset().insert(x));
    }
}

/// Sorted ids of valid default-game codes.
fn sorted_ids(cands: &[Vec<u8>]) -> (key: Vec<u16>)
    requires
        forall|i: int| 0 <= i < cands@.len() ==> default_code(#[trigger] cands@[i]@),
    ensures
        key@ == policy_key(cands.deep_view()),
{
    let ghost ids = code_ids(cands.deep_view());
    let mut key: Vec<u16> = Vec::new();
    let mut i: usize = 0;
    proof {
        assert(ids.take(0) =~= Seq::<u16>::empty());
        key@.to_multiset_ensures();
        ids.take(0).to_multiset_ensures();
        assert(key@.to_multiset() =~= ids.take(0).to_multiset());
    }
    while i < cands.len()
        invariant
            i <= cands@.len(),
            ids == code_ids(cands.deep_view()),
            forall|q: int| 0 <= q < cands@.len() ==> default_code(#[trigger] cands@[q]@),
            ascending(key@),
            key@.to_multiset() == ids.take(i as int).to_multiset(),
        decreases cands@.len() - i,
    {
        let id = code_id(cands[i].as_slice());
        assert(cands.deep_view()[i as int] == cands@[i as int]@);
        assert(ids[i as int] == id);
        insert_sorted(&mut key, id);
        proof {
            assert(ids.take(i + 1) =~= ids.take(i as int).push(id));
            vstd::seq_lib::to_multiset_build(ids.take(i as int), id);
        }
        i += 1;
    }
    proof {
        assert(ids.take(cands@.len() as int) =~= ids);
        assert(sorted_by(key@, |a: u16, b: u16| id_le(a, b))) by {
            assert forall|a: int, b: int| 0 <= a < b < key@.len() implies id_le(#[trigger] key@[a], #[trigger] key@[b]) by {
                assert(key@[a] <= key@[b]);
            }
        }
        lemma_id_le_total();
        ids.lemma_sort_by_ensures(|a: u16, b: u16| id_le(a, b));
        vstd::seq_lib::lemma_sorted_unique(key@, policy_key(cands.deep_view()), |a: u16, b: u16| id_le(a, b));
    }
    key
}

/// The key of a candidate list lists the candidates' ids in ascending
/// order, each as often as it occurs.
pub proof fn lemma_policy_key_sorted(cands: Seq<Seq<u8>>)
    ensures
        ascending(policy_key(cands)),
        policy_key(cands).to_multiset() == code_ids(cands).to_multiset(),
        policy_key(cands).len() == cands.len(),
{
    lemma_id_le_total();
    code_ids(cands).lemma_sort_by_ensures(|a: u16, b: u16| id_le(a, b));
    let k = policy_key(cands);
    let leq = |a: u16, b: u16| id_le(a, b);
    assert(sorted_by(k, leq));
    assert forall|a: int, b: int| 0 <= a < b < k.len() implies #[trigger] k[a] <= #[trigger] k[b] by {
        assert(leq(k[a], k[b]));
    }
    k.to_multiset_ensures();
    code_ids(cands).to_multiset_ensures();
}

/// An ascending list with the ids of `cands` is the key of `cands`.
proof fn lemma_sorted_ids_are_key(cands: Seq<Seq<u8>>, key: Seq<u16>)
    requires
        ascending(key),
        key.to_multiset() == code_ids(cands).to_multiset(),
    ensures
        key == policy_key(cands),
{
    lemma_policy_key_sorted(cands);
    lemma_id_le_total();
    assert(sorted_by(key, |a: u16, b: u16| id_le(a, b))) by {
        assert forall|a: int, b: int| 0 <= a < b < key.len() implies id_le(#[trigger] key[a], #[trigger] key[b]) by {
            assert(key[a] <= key[b]);
        }
    }
    code_ids(cands).lemma_sort_by_ensures(|a: u16, b: u16| id_le(a, b));
    vstd::seq_lib::lemma_sorted_unique(key, policy_key(cands), |a: u16, b: u16| id_le(a, b));
}

/// Lists with the same codes, in any order, have ids with the same counts.
proof fn lemma_ids_multiset(c1: Seq<Seq<u8>>, c2: Seq<Seq<u8>>)
    requires
        c1.to_multiset() == c2.to_multiset(),
    ensures
        code_ids(c1).to_multiset() == code_ids(c2).to_multiset(),
    decreases c1.len(),
{
    broadcast use vstd::multiset::group_multiset_axioms;
    broadcast use vstd::seq_lib::group_to_multiset_ensures;

    vstd::seq_lib::to_multiset_len(c1);
    vstd::seq_lib::to_multiset_len(c2);
    if c1.len() == 0 {
        assert(c2.len() == 0);
        assert(code_ids(c1) =~= code_ids(c2));
    } else {
        let a = c1.last();
        let d1 = c1.drop_last();
        assert(d1.push(a) =~= c1);
        assert(c1.to_multiset().count(a) > 0);
        assert(c2.contains(a));
        let j = choose|j: int| 0 <= j < c2.len() && c2[j] == a;
        let d2 = c2.remove(j);
        assert(d1.to_multiset() =~= c1.to_multiset().remove(a));
        assert(d2.to_multiset() =~= c2.to_multiset().remove(a));
        lemma_ids_multiset(d1, d2);
        let v = code_value(a) as u16;
        assert(code_ids(c1) =~= code_ids(d1).push(v));
        assert(code_ids(d2) =~= code_ids(c2).remove(j));
        assert(code_ids(c2)[j] == v);
        assert(code_ids(c2).to_multiset().count(v) > 0);
        assert(code_ids(c2).to_multiset() =~= code_ids(d2).to_multiset().insert(v));
        assert(code_ids(c1).to_multiset() =~= code_ids(d1).to_multiset().insert(v));
    }
}

/// The move a policy recommends for two or more valid candidates of the
/// default game is the row stored under the ascending list of the
/// candidates' ids, or none when there is no such row.
pub proof fn lemma_lookup_by_sorted_ids(
    settings: Settings,
    cands: Seq<Seq<u8>>,
    table: Map<Seq<u16>, (u16, usize)>,
    key: Seq<u16>,
)
    requires
        settings == Settings::spec_default(),
        cands.len() >= 2,
        forall|i: int| 0 <= i < cands.len() ==> default_code(#[trigger] cands[i]),
        ascending(key),
        key.to_multiset() == code_ids(cands).to_multiset(),
    ensures
        lookup_spec(settings, cands, table) == (if table.contains_key(key) {
            Some(MoveView::Guess(odometer_code(table[key].0 as nat, 6, 4), table[key].1 as nat))
        } else {
            None
        }),
{
    lemma_sorted_ids_are_key(cands, key);
}

/// A lookup does not depend on the order in which the candidates are
/// given: lists with the same codes, each as often, get the same move.
pub proof fn lemma_lookup_order_free(
    settings: Settings,
    c1: Seq<Seq<u8>>,
    c2: Seq<Seq<u8>>,
    table: Map<Seq<u16>, (u16, usize)>,
)
    requires
        c1.to_multiset() == c2.to_multiset(),
    ensures
        lookup_spec(settings, c1, table) == lookup_spec(settings, c2, table),
{
    broadcast use vstd::multiset::group_multiset_axioms;
    broadcast use vstd::seq_lib::group_to_multiset_ensures;

    vstd::seq_lib::to_multiset_len(c1);
    vstd::seq_lib::to_multiset_len(c2);
    assert(c1.len() == c2.len());
    assert forall|x: Seq<u8>| c1.contains(x) <==> c2.contains(x) by {
        assert(c1.contains(x) <==> c1.to_multiset().count(x) > 0);
        assert(c2.contains(x) <==> c2.to_multiset().count(x) > 0);
    }
    if exists|i: int| 0 <= i < c1.len() && !default_code(#[trigger] c1[i]) {
        let i = choose|i: int| 0 <= i < c1.len() && !default_code(#[trigger] c1[i]);
        assert(c1.contains(c1[i]));
        let j = choose|j: int| 0 <= j < c2.len() && c2[j] == c1[i];
        assert(!default_code(c2[j]));
    }
    if exists|i: int| 0 <= i < c2.len() && !default_code(#[trigger] c2[i]) {
        let i = choose|i: int| 0 <= i < c2.len() && !default_code(#[trigger] c2[i]);
        assert(c2.contains(c2[i]));
        let j = choose|j: int| 0 <= j < c1.len() && c1[j] == c2[i];
        assert(!default_code(c1[j]));
    }
    if c1.len() == 1 {
        assert(c1.contains(c1[0]));
        assert(c2.contains(c1[0]));
    }
    lemma_ids_multiset(c1, c2);
    lemma_policy_key_sorted(c2);
    lemma_policy_key_sorted(c1);
    lemma_sorted_ids_are_key(c1, policy_key(c2));
}

/// What the policy `table` recommends for the candidate list `cands`.
pub open spec fn lookup_spec(
    settings: Settings,
    cands: Seq<Seq<u8>>,
    table: Map<Seq<u16>, (u16, usize)>,
) -> Option<MoveView> {
    if settings != Settings::spec_default() || cands.len() == 0 {
        None
    } else if exists|i: int| 0 <= i < cands.len() && !default_code(#[trigger] cands[i]) {
        None
    } else if cands.len() == 1 {
        Some(MoveView::Answer(cands[0]))
    } else if table.contains_key(policy_key(cands)) {
        let (g, steps) = table[policy_key(cands)];
        Some(MoveView::Guess(odometer_code(g as nat, 6, 4), steps as nat))
    } else {
        None
    }
}

/// Looks up the recommendation of `table` for the current candidates. Only
/// the default game is covered.
pub fn lookup_table(settings: &Settings, candidates: &[Vec<u8>], table: &PolicyTable) -> (r: Option<PolicyMove>)
    requires
        table.wf(),
    ensures
        r matches Some(m) ==> lookup_spec(*settings, candidates.deep_view(), table.view()) == Some(m.view()),
        r is None ==> lookup_spec(*settings, candidates.deep_view(), table.view()) is None,
{
    let ghost cv = candidates.deep_view();
    let d = Settings { colors: 6, slots: 4, repeats: true };
    if *settings != d || candidates.len() == 0 {
        return None;
    }
    let mut i: usize = 0;
    while i < candidates.len()
        invariant
            i <= candidates@.len(),
            cv == candidates.deep_view(),
            *settings == Settings::spec_default(),
            cv.len() > 0,
            forall|q: int| 0 <= q < i ==> default_code(#[trigger] cv[q]),
        decreases candidates@.len() - i,
    {
        let c = &candidates[i];
        assert(cv[i as int] == c@);
        if c.len() != 4 {
            return None;
        }
        let mut k: usize = 0;
        while k < 4
            invariant
                k <= 4,
                c@.len() == 4,
                i < cv.len(),
                cv == candidates.deep_view(),
                *settings == Settings::spec_default(),
                cv.len() > 0,
                c@ == cv[i as int],
                forall|q: int| 0 <= q < k ==> #[trigger] c@[q] < 6,
            decreases 4 - k,
        {
            if c[k] >= 6 {
                assert(cv[i as int][k as int] == c@[k as int]);
                assert(!default_code(cv[i as int]));
                return None;
            }
            k += 1;
        }
        i += 1;
    }
    assert forall|q: int| 0 <= q < candidates@.len() implies default_code(#[trigger] candidates@[q]@) by {
        assert(cv[q] == candidates@[q]@);
    }
    if candidates.len() == 1 {
        let a = candidates[0].clone();
        assert(a@ =~= candidates@[0]@);
        assert(cv[0] == candidates@[0]@);
        return Some(PolicyMove::Answer(a));
    }
    let key = sorted_ids(candidates);
    match table.get(key.as_slice()) {
        Some(entry) => {
            let (g, steps) = *entry;
            let guess = decode(g);
            Some(PolicyMove::Guess { guess, steps })
        },
        None => None,
    }
}

/// Row values that a policy may hold: a non-empty, strictly increasing list
/// of default-game ids, a default-game guess, and between 1 and 1296 steps.
pub open spec fn valid_row_values(ids: Seq<u16>, guess: nat, steps: nat) -> bool {
    &&& ids.len() > 0
    &&& forall|i: int| 0 <= i < ids.len() ==> #[trigger] ids[i] < 1296
    &&& forall|i: int| 0 <= i < ids.len() - 1 ==> #[trigger] ids[i] < ids[i + 1]
    &&& guess < 1296
    &&& 1 <= steps <= 1296
}

/// The numbers of a comma-separated id list (only meaningful when all parse).
pub open spec fn row_ids(parts: Seq<Seq<u8>>) -> Seq<u16> {
    Seq::new(parts.len(), |i: int| parse_unsigned(parts[i], 65535)->0 as u16)
}

/// One line of a policy text: `ids;guess;steps`, ids separated by commas.
pub open spec fn parse_row(line: Seq<u8>) -> Result<(Seq<u16>, u16, usize), PolicyError> {
    let fields = split_on(line, 59u8);
    if fields.len() != 3 {
        Err(PolicyError::InvalidRow)
    } else {
        let parts = split_on(fields[0], 44u8);
        if exists|i: int| 0 <= i < parts.len() && #[trigger] parse_unsigned(parts[i], 65535) is None {
            Err(PolicyError::InvalidCandidate)
        } else {
            match parse_unsigned(fields[1], 65535) {
                None => Err(PolicyError::InvalidGuess),
                Some(g) => match parse_unsigned(fields[2], usize::MAX as nat) {
                    None => Err(PolicyError::InvalidSteps),
                    Some(st) => if !valid_row_values(row_ids(parts), g, st) {
                        Err(PolicyError::InvalidValues)
                    } else {
                        Ok((row_ids(parts), g as u16, st as usize))
                    },
                },
            }
        }
    }
}

/// The table that a list of policy lines describes, or the error of the
/// first bad line.
pub open spec fn parse_rows(lines: Seq<Seq<u8>>) -> Result<Map<Seq<u16>, (u16, usize)>, PolicyError>
    decreases lines.len(),
{
    if lines.len() == 0 {
        Ok(Map::empty())
    } else {
        match parse_rows(lines.drop_last()) {
            Err(e) => Err(e),
            Ok(m) => match parse_row(lines.last()) {
                Err(e) => Err(e),
                Ok((ids, g, st)) => if m.contains_key(ids) {
                    Err(PolicyError::DuplicateState)
                } else {
                    Ok(m.insert(ids, (g, st)))
                },
            },
        }
    }
}

fn parse_policy_row(line: &[u8]) -> (r: Result<(Vec<u16>, u16, usize), PolicyError>)
    ensures
        r matches Ok((ids, g, st)) ==> parse_row(line@) == Ok::<(Seq<u16>, u16, usize), PolicyError>((ids@, g, st)),
        r matches Err(e) ==> parse_row(line@) == Err::<(Seq<u16>, u16, usize), PolicyError>(e),
{
    let fields = split_bytes(line, 59u8);
    let ghost fv = fields.deep_view();
    if fields.len() != 3 {
        return Err(PolicyError::InvalidRow);
    }
    assert(fv[0] == fields@[0]@ && fv[1] == fields@[1]@ && fv[2] == fields@[2]@);
    let parts = split_bytes(fields[0].as_slice(), 44u8);
    let ghost pv = parts.deep_view();
    let mut ids: Vec<u16> = Vec::new();
    let mut i: usize = 0;
    while i < parts.len()
        invariant
            i <= parts@.len(),
            pv == parts.deep_view(),
            fv == split_on(line@, 59u8),
            fv.len() == 3,
            pv == split_on(fv[0], 44u8),
            ids@.len() == i,
            forall|q: int| 0 <= q < i ==> #[trigger] parse_unsigned(pv[q], 65535) is Some,
            forall|q: int| 0 <= q < i ==> #[trigger] ids@[q] == row_ids(pv)[q],
        decreases parts@.len() - i,
    {
        assert(pv[i as int] == parts@[i as int]@);
        match parse_number(parts[i].as_slice(), 65535) {
            Some(v) => {
                ids.push(v as u16);
            },
            None => {
                assert(parse_unsigned(pv[i as int], 65535) is None);
                return Err(PolicyError::InvalidCandidate);
            },
        }
        i += 1;
    }
    assert(ids@ =~= row_ids(pv));
    let g = match parse_number(fields[1].as_slice(), 65535) {
        Some(v) => v,
        None => {
            return Err(PolicyError::InvalidGuess);
        },
    };
    let st = match parse_number(fields[2].as_slice(), usize::MAX as u64) {
        Some(v) => v,
        None => {
            return Err(PolicyError::InvalidSteps);
        },
    };
    let mut ok = ids.len() > 0 && g < 1296 && 1 <= st && st <= 1296;
    let mut k: usize = 0;
    while k < ids.len()
        invariant
            k <= ids@.len(),
            ok ==> forall|q: int| 0 <= q < k ==> #[trigger] ids@[q] < 1296,
            ok ==> forall|q: int| 0 <= q < k && q < ids@.len() - 1 ==> #[trigger] ids@[q] < ids@[q + 1],
            ok ==> ids@.len() > 0 && g < 1296 && 1 <= st <= 1296,
            !ok ==> !valid_row_values(ids@, g as nat, st as nat),
        decreases ids@.len() - k,
    {
        if ids[k] >= 1296 {
            ok = false;
        }
        if k + 1 < ids.len() && ids[k] >= ids[k + 1] {
            ok = false;
        }
        k += 1;
    }
    if !ok {
        return Err(PolicyError::InvalidValues);
    }
    Ok((ids, g as u16, st as usize))
}

proof fn lemma_parse_rows_prefix_err(lines: Seq<Seq<u8>>, j: int)
    requires
        0 <= j <= lines.len(),
        parse_rows(lines.take(j)) is Err,
    ensures
        parse_rows(lines) == parse_rows(lines.take(j)),
    decreases lines.len(),
{
    if j == lines.len() {
        assert(lines.take(j) =~= lines);
    } else {
        assert(lines.drop_last().take(j) =~= lines.take(j));
        lemma_parse_rows_prefix_err(lines.drop_last(), j);
    }
}

/// Reads a policy text into a table, rejecting malformed rows, values out
/// of range and repeated candidate sets.
pub fn parse_policy(text: &str) -> (r: Result<PolicyTable, PolicyError>)
    ensures
        r matches Ok(t) ==> t.wf() && parse_rows(lines_of(text.spec_bytes())) == Ok::<Map<Seq<u16>, (u16, usize)>, PolicyError>(t.view()),
        r matches Err(e) ==> parse_rows(lines_of(text.spec_bytes())) == Err::<Map<Seq<u16>, (u16, usize)>, PolicyError>(e),
{
    let lines = split_lines(text.as_bytes());
    let ghost lv = lines.deep_view();
    let mut table: PolicyTable = KeyMap::new();
    let mut i: usize = 0;
    while i < lines.len()
        invariant
            i <= lines@.len(),
            lv == lines.deep_view(),
            lv == lines_of(text.spec_bytes()),
            table.wf(),
            parse_rows(lv.take(i as int)) == Ok::<Map<Seq<u16>, (u16, usize)>, PolicyError>(table.view()),
        decreases lines@.len() - i,
    {
        assert(lv.take(i + 1).drop_last() =~= lv.take(i as int));
        assert(lv.take(i + 1).last() == lines@[i as int]@);
        match parse_policy_row(lines[i].as_slice()) {
            Err(e) => {
                proof {
                    lemma_parse_rows_prefix_err(lv, i + 1);
                }
                return Err(e);
            },
            Ok((ids, g, st)) => {
                if table.contains_key(ids.as_slice()) {
                    proof {
                        lemma_parse_rows_prefix_err(lv, i + 1);
                    }
                    return Err(PolicyError::DuplicateState);
                }
                table.insert(ids, (g, st));
            },
        }
        i += 1;
    }
    assert(lv.take(lines@.len() as int) =~= lv);
    Ok(table)
}

/// The candidates that give `fb` against `guess`.
pub open spec fn with_feedback(cands: Seq<Seq<u8>>, guess: Seq<u8>, fb: (int, int)) -> Seq<Seq<u8>> {
    cands.filter(|c: Seq<u8>| feedback(guess, c) == fb)
}

/// Playing the policy `table` against `answer` from turn `turn`, with the
/// candidates `cands` left and a promise to finish by turn `promised`: the
/// turn on which the answer is submitted, or why the replay fails.
pub open spec fn play(
    table: Map<Seq<u16>, (u16, usize)>,
    cands: Seq<Seq<u8>>,
    answer: Seq<u8>,
    turn: nat,
    promised: int,
) -> Result<nat, PolicyError>
    decreases 1297 - turn,
{
    if turn > 1296 {
        Err(PolicyError::Unsolved)
    } else {
        match lookup_spec(Settings::spec_default(), cands, table) {
            None => Err(PolicyError::MissingBranch),
            Some(m) => {
                let g = match m {
                    MoveView::Answer(a) => a,
                    MoveView::Guess(a, _) => a,
                };
                let p = match m {
                    MoveView::Answer(_) => promised,
                    MoveView::Guess(_, steps) => turn + steps - 1,
                };
                if m is Guess && p > promised {
                    Err(PolicyError::InconsistentGuarantee)
                } else if turn > p {
                    Err(PolicyError::GuaranteeExceeded)
                } else if feedback(g, answer) == (4int, 0int) {
                    Ok(turn)
                } else {
                    let next = with_feedback(cands, g, feedback(g, answer));
                    if next.len() == 0 || next.len() >= cands.len() || turn == 1296 {
                        Err(PolicyError::Unsolved)
                    } else {
                        play(table, next, answer, turn + 1, p)
                    }
                }
            },
        }
    }
}

/// Total and largest number of submissions over the first `n` answers.
pub open spec fn replay_all(
    table: Map<Seq<u16>, (u16, usize)>,
    space: Seq<Seq<u8>>,
    n: nat,
) -> Result<(nat, nat), PolicyError>
    decreases n,
{
    if n == 0 {
        Ok((0, 0))
    } else {
        match replay_all(table, space, (n - 1) as nat) {
            Err(e) => Err(e),
            Ok((total, worst)) => match play(table, space, space[n - 1], 1, usize::MAX as int) {
                Err(e) => Err(e),
                Ok(turns) => Ok((total + turns, if turns > worst {
                    turns
                } else {
                    worst
                })),
            },
        }
    }
}

/// Outcome of checking a policy text against every answer of the default game.
pub open spec fn verify_spec(text: Seq<u8>) -> Result<(nat, nat), PolicyError> {
    match parse_rows(lines_of(text)) {
        Err(e) => Err(e),
        Ok(table) => replay_all(table, space_of(Settings::spec_default()), 1296),
    }
}

fn keep_feedback(cands: &Vec<Vec<u8>>, guess: &Vec<u8>, fb: (u8, u8)) -> (out: Vec<Vec<u8>>)
    requires
        guess@.len() == 4,
        forall|i: int| 0 <= i < cands@.len() ==> default_code(#[trigger] cands@[i]@),
    ensures
        out.deep_view() == with_feedback(cands.deep_view(), guess@, (fb.0 as int, fb.1 as int)),
        forall|i: int| 0 <= i < out@.len() ==> default_code(#[trigger] out@[i]@),
{
    let ghost cv = cands.deep_view();
    let ghost pred = |c: Seq<u8>| feedback(guess@, c) == (fb.0 as int, fb.1 as int);
    let mut out: Vec<Vec<u8>> = Vec::new();
    let mut i: usize = 0;
    while i < cands.len()
        invariant
            i <= cands@.len(),
            cv == cands.deep_view(),
            guess@.len() == 4,
            pred == (|c: Seq<u8>| feedback(guess@, c) == (fb.0 as int, fb.1 as int)),
            forall|q: int| 0 <= q < cands@.len() ==> default_code(#[trigger] cands@[q]@),
            forall|q: int| 0 <= q < out@.len() ==> default_code(#[trigger] out@[q]@),
            out.deep_view() =~= cv.take(i as int).filter(pred),
        decreases cands@.len() - i,
    {
        let c = &cands[i];
        assert(cv[i as int] == c@);
        let r = judge(guess.as_slice(), c.as_slice());
        assert(cv.take(i + 1).drop_last() =~= cv.take(i as int));
        assert(cv.take(i + 1).last() == c@);
        reveal_with_fuel(Seq::filter, 1);
        let ghost prev = out.deep_view();
        if r.0 == fb.0 && r.1 == fb.1 {
            let copy = c.clone();
            assert(copy@ =~= c@);
            assert(copy.deep_view() =~= c@);
            out.push(copy);
            assert(out.deep_view() =~= prev.push(c@));
        }
        i += 1;
    }
    assert(cv.take(cands@.len() as int) =~= cv);
    out
}

/// Every step count stored in the table is at most 1296.
pub open spec fn bounded_steps(table: Map<Seq<u16>, (u16, usize)>) -> bool {
    forall|k: Seq<u16>| #[trigger] table.contains_key(k) ==> table[k].1 <= 1296
}

proof fn lemma_parse_rows_bounded(lines: Seq<Seq<u8>>)
    requires
        parse_rows(lines) is Ok,
    ensures
        bounded_steps(parse_rows(lines)->Ok_0),
    decreases lines.len(),
{
    if lines.len() > 0 {
        lemma_parse_rows_bounded(lines.drop_last());
    }
}

fn play_answer(table: &PolicyTable, space: &Vec<Vec<u8>>, answer: &Vec<u8>) -> (r: Result<usize, PolicyError>)
    requires
        table.wf(),
        bounded_steps(table.view()),
        answer@.len() == 4,
        forall|i: int| 0 <= i < space@.len() ==> default_code(#[trigger] space@[i]@),
    ensures
        r matches Ok(t) ==> play(table.view(), space.deep_view(), answer@, 1, usize::MAX as int) == Ok::<nat, PolicyError>(t as nat) && 1 <= t <= 1296,
        r matches Err(e) ==> play(table.view(), space.deep_view(), answer@, 1, usize::MAX as int) == Err::<nat, PolicyError>(e),
{
    let settings = Settings { colors: 6, slots: 4, repeats: true };
    let mut candidates: Vec<Vec<u8>> = Vec::new();
    let mut z: usize = 0;
    while z < space.len()
        invariant
            z <= space@.len(),
            candidates.deep_view() =~= space.deep_view().take(z as int),
            forall|q: int| 0 <= q < candidates@.len() ==> default_code(#[trigger] candidates@[q]@),
            forall|i: int| 0 <= i < space@.len() ==> default_code(#[trigger] space@[i]@),
        decreases space@.len() - z,
    {
        let copy = space[z].clone();
        assert(copy@ =~= space@[z as int]@);
        assert(copy.deep_view() =~= copy@);
        let ghost prev = candidates.deep_view();
        candidates.push(copy);
        assert(candidates.deep_view() =~= prev.push(space@[z as int]@));
        z += 1;
    }
    assert(space.deep_view().take(space@.len() as int) =~= space.deep_view());
    let mut promised: usize = usize::MAX;
    let mut turn: usize = 1;
    while turn <= 1296
        invariant
            1 <= turn <= 1296,
            settings == Settings::spec_default(),
            table.wf(),
            bounded_steps(table.view()),
            answer@.len() == 4,
            forall|q: int| 0 <= q < candidates@.len() ==> default_code(#[trigger] candidates@[q]@),
            play(table.view(), space.deep_view(), answer@, 1, usize::MAX as int) == play(
                table.view(),
                candidates.deep_view(),
                answer@,
                turn as nat,
                promised as int,
            ),
        decreases 1297 - turn,
    {
        let ghost cv = candidates.deep_view();
        let cs = candidates.as_slice();
        assert(cs.deep_view() =~= cv);
        let mv = lookup_table(&settings, cs, table);
        let guess = match mv {
            None => {
                return Err(PolicyError::MissingBranch);
            },
            Some(PolicyMove::Answer(g)) => g,
            Some(PolicyMove::Guess { guess, steps }) => {
                let next_promise = turn + steps - 1;
                if next_promise > promised {
                    return Err(PolicyError::InconsistentGuarantee);
                }
                promised = next_promise;
                guess
            },
        };
        proof {
            assert(forall|q: int| 0 <= q < cv.len() ==> default_code(#[trigger] cv[q])) by {
                assert forall|q: int| 0 <= q < cv.len() implies default_code(#[trigger] cv[q]) by {
                    assert(cv[q] == candidates@[q]@);
                }
            }
        }
        if turn > promised {
            return Err(PolicyError::GuaranteeExceeded);
        }
        assert(guess@.len() == 4);
        let fb = judge(guess.as_slice(), answer.as_slice());
        if fb.0 == 4 && fb.1 == 0 {
            return Ok(turn);
        }
        let next = keep_feedback(&candidates, &guess, fb);
        if next.len() == 0 || next.len() >= candidates.len() || turn == 1296 {
            return Err(PolicyError::Unsolved);
        }
        candidates = next;
        turn += 1;
    }
    Err(PolicyError::Unsolved)
}

proof fn lemma_default_space_shape()
    ensures
        space_of(Settings::spec_default()).len() == 1296,
        forall|i: int| 0 <= i < 1296 ==> default_code(#[trigger] space_of(Settings::spec_default())[i]),
{
    crate::solver::lemma_space_shape(Settings::spec_default());
    assert(crate::solver::power(6, 4) == 1296) by {
        reveal_with_fuel(crate::solver::power, 5);
    }
    assert forall|i: int| 0 <= i < 1296 implies default_code(#[trigger] space_of(Settings::spec_default())[i]) by {
        let x = space_of(Settings::spec_default())[i];
        assert(space_of(Settings::spec_default()).contains(x));
    }
}

/// Independently replays every default-game answer under the policy in
/// `text`, using only the feedback rule and candidate filtering. On success
/// returns the total and the largest number of submissions over all 1296
/// answers.
pub fn verify_policy(text: &str) -> (r: Result<(usize, usize), String>)
    ensures
        r matches Ok((total, worst)) ==> verify_spec(text.spec_bytes()) == Ok::<(nat, nat), PolicyError>((total as nat, worst as nat)),
        r matches Err(msg) ==> exists|e: PolicyError| verify_spec(text.spec_bytes()) == Err::<(nat, nat), PolicyError>(e) && msg@ == error_text(e),
{
    let table = match parse_policy(text) {
        Ok(t) => t,
        Err(e) => {
            return Err(String::from_str(e.message()));
        },
    };
    let settings = Settings { colors: 6, slots: 4, repeats: true };
    let space = enumerate_space(&settings);
    proof {
        lemma_parse_rows_bounded(lines_of(text.spec_bytes()));
        lemma_default_space_shape();
        assert forall|i: int| 0 <= i < space@.len() implies default_code(#[trigger] space@[i]@) by {
            assert(space.deep_view()[i] == space@[i]@);
        }
    }
    let ghost sp = space.deep_view();
    let mut total: usize = 0;
    let mut worst: usize = 0;
    let mut a: usize = 0;
    while a < space.len()
        invariant
            a <= space@.len() == 1296,
            sp == space.deep_view(),
            sp == space_of(Settings::spec_default()),
            table.wf(),
            bounded_steps(table.view()),
            parse_rows(lines_of(text.spec_bytes())) == Ok::<Map<Seq<u16>, (u16, usize)>, PolicyError>(table.view()),
            forall|i: int| 0 <= i < space@.len() ==> default_code(#[trigger] space@[i]@),
            replay_all(table.view(), sp, a as nat) == Ok::<(nat, nat), PolicyError>((total as nat, worst as nat)),
            total <= a * 1296,
            worst <= 1296,
        decreases space@.len() - a,
    {
        assert(sp[a as int] == space@[a as int]@);
        match play_answer(&table, &space, &space[a]) {
            Ok(t) => {
                total = total + t;
                if t > worst {
                    worst = t;
                }
            },
            Err(e) => {
                proof {
                    lemma_replay_err(table.view(), sp, a as nat, 1296);
                }
                return Err(String::from_str(e.message()));
            },
        }
        a += 1;
    }
    Ok((total, worst))
}

proof fn lemma_replay_err(table: Map<Seq<u16>, (u16, usize)>, space: Seq<Seq<u8>>, a: nat, n: nat)
    requires
        a < n,
        replay_all(table, space, a) is Ok,
        play(table, space, space[a as int], 1, usize::MAX as int) is Err,
    ensures
        replay_all(table, space, n) == Err::<(nat, nat), PolicyError>(play(table, space, space[a as int], 1, usize::MAX as int)->Err_0),
    decreases n,
{
    if n > a + 1 {
        lemma_replay_err(table, space, a, (n - 1) as nat);
    }
}

} // verus!
