//! Offline exact expected-submission optimizer: branch and bound over
//! candidate sets, with memoized lower and upper bounds.
use std::time::Instant;

use vstd::prelude::*;

use crate::judge::{feedback, judge, lemma_feedback_bounds, lemma_feedback_self};
use crate::realize::{
    forest_total, forest_worst, lemma_children_distinct, lemma_forest_push, lemma_join_realizes,
    lemma_realized_insert, lemma_realized_same_uppers, lemma_small_realizes, memo_realized, realizes, exact_state,
};
use crate::keymap::{lemma_lex_irreflexive, lemma_lex_transitive, lex_lt, KeyMap};
use crate::model::Settings;
use crate::policy::{id_le, insert_sorted};
use crate::solver::{
    enumerate_space, lemma_odometer_injective, lemma_space_shape, odometer_code, odometer_space, power, space_of,
};
use crate::symmetry::{increasing, lemma_children_increasing, lemma_power_one, lemma_root_guesses_cover};
use crate::bound::{
    bounds_sum, buckets_same, distinct_codes, guesses_in, lemma_blocked_child, lemma_children_shaped,
    lemma_distinct_no_dup, lemma_found_at_most_one, lemma_guess_bound, lemma_ids_len, lemma_no_progress_guess,
    lemma_possible_count, lemma_sound_lower_from_vias, lemma_sound_lower_weaken, lemma_sound_via_weaken,
    lemma_sum_agree, lemma_sum_order, lemma_sum_split, lemma_tl_small, lemma_tree_cost, lemma_via_sum,
    lemma_via_twin, lens_of, possible_count, shaped, sound_lower, sound_via, sum_from, sum_to,
};
use crate::judge::count_color;
use crate::checkpoint::{
    checkpoint_error_text, checkpoint_spec, decode_checkpoint, decode_spec, encode_checkpoint,
    lemma_checkpoint_round_trip, lemma_parse_entries_valid, valid_entry, floored_memo, CheckpointError,
};
use crate::policy::row_ids;
use crate::text::{lines_of, parse_number, parse_unsigned, split_bytes, split_lines, split_on};
use vstd::string::StringSliceAdditionalSpecFns;
use vstd::utf8::encode_utf8;

verus! {

#[verifier::external_type_specification]
#[verifier::external_body]
pub struct ExInstant(Instant);

/// The current time (`Instant::now`). Nothing is known of the value.
#[verifier::external_body]
fn clock_now() -> Instant {
    Instant::now()
}

/// Whether `now` is at or after `deadline` (`Instant`'s `>=`). Nothing is
/// stated of the answer.
#[verifier::external_body]
fn clock_reached(now: &Instant, deadline: &Instant) -> bool {
    now >= deadline
}

/// The best strategy found for a candidate set: the guess to play, the
/// total number of submissions over all candidates, and the largest.
#[derive(Clone, Copy, Debug, PartialEq, Eq, Structural)]
pub struct Node {
    pub guess: u16,
    pub total: usize,
    pub worst: usize,
}

/// Memoized bounds of one candidate set.
#[derive(Clone, Copy, Debug)]
pub struct Entry {
    pub lower: usize,
    pub upper: Option<Node>,
}

/// The search ran out of time.
#[derive(Debug)]
pub struct Interrupted;

/// Feedback of guess `g` against code `a` of `sp`, as `exact * 5 + partial`.
pub open spec fn fb_code(sp: Seq<Seq<u8>>, g: int, a: int) -> int {
    feedback(sp[g], sp[a]).0 * 5 + feedback(sp[g], sp[a]).1
}

/// All ids of `c` index the space.
pub open spec fn ids_below(c: Seq<u16>, n: nat) -> bool {
    forall|i: int| 0 <= i < c.len() ==> (#[trigger] c[i] as nat) < n
}

/// The candidates of `c` that give feedback `f` against guess `g`; the
/// terminal feedback (all exact) gives none.
pub open spec fn bucket(sp: Seq<Seq<u8>>, slots: nat, c: Seq<u16>, g: int, f: int) -> Seq<u16> {
    if f == slots * 5 {
        Seq::empty()
    } else {
        c.filter(|id: u16| fb_code(sp, g, id as int) == f)
    }
}

/// How many candidates of `c` give feedback number `f` against guess `g`.
pub open spec fn fb_count(sp: Seq<Seq<u8>>, c: Seq<u16>, g: int, f: int) -> nat {
    c.filter(|id: u16| fb_code(sp, g, id as int) == f).len()
}

/// Guess `g` gives every candidate of `c` the same feedback.
pub open spec fn blocked_guess(sp: Seq<Seq<u8>>, c: Seq<u16>, g: int) -> bool {
    exists|f: int| 0 <= f < 25 && #[trigger] fb_count(sp, c, g, f) == c.len()
}

/// The one-ply bound of guess `g`: one submission per candidate, plus the
/// counting bound of every non-terminal bucket.
pub open spec fn guess_bound(sp: Seq<Seq<u8>>, slots: nat, c: Seq<u16>, g: int, br: nat) -> nat {
    c.len() + bounds_sum(lens_of(Seq::new(25, |f: int| bucket(sp, slots, c, g, f))), br)
}

/// The smallest one-ply bound over the guesses below `m` that are not
/// blocked, or `usize::MAX` when there is none.
pub open spec fn one_ply_bound(sp: Seq<Seq<u8>>, slots: nat, c: Seq<u16>, br: nat, m: nat) -> nat
    decreases m,
{
    if m == 0 {
        usize::MAX as nat
    } else {
        let b = one_ply_bound(sp, slots, c, br, (m - 1) as nat);
        if blocked_guess(sp, c, m - 1) || b <= guess_bound(sp, slots, c, m - 1, br) {
            b
        } else {
            guess_bound(sp, slots, c, m - 1, br)
        }
    }
}

/// The non-empty non-terminal buckets of guess `g`, by feedback.
pub open spec fn children_spec(sp: Seq<Seq<u8>>, slots: nat, c: Seq<u16>, g: int) -> Seq<Seq<u16>> {
    Seq::new(25, |f: int| bucket(sp, slots, c, g, f)).filter(|b: Seq<u16>| b.len() > 0)
}

pub open spec fn sat_mul(a: nat, b: nat) -> nat {
    if a * b > usize::MAX {
        usize::MAX as nat
    } else {
        a * b
    }
}

/// Cost of filling `n` candidates level by level into a tree whose levels
/// hold `capacity`, `capacity * branches`, ... nodes, from level `depth` on.
pub open spec fn tl_from(n: nat, capacity: nat, depth: nat, branches: nat) -> nat
    decreases n,
{
    if n == 0 || capacity == 0 {
        0
    } else {
        let take = if capacity < n {
            capacity
        } else {
            n
        };
        depth * take + tl_from(
            (n - take) as nat,
            if sat_mul(capacity, branches) >= 1 {
                sat_mul(capacity, branches)
            } else {
                1
            },
            depth + 1,
            branches,
        )
    }
}

/// The counting lower bound for `n` candidates and `branches` non-terminal
/// feedback values: a complete tree, one node on the first level.
pub open spec fn theoretical_lower_spec(n: nat, branches: nat) -> nat {
    tl_from(n, 1, 1, branches)
}

/// Sorted colour counts of a code: codes with the same signature are the
/// same up to renaming colours and reordering slots.
pub open spec fn count_signature(code: Seq<u8>, colors: nat) -> Seq<u16> {
    Seq::new(colors, |col: int| count_color(code, col) as u16).sort_by(|a: u16, b: u16| id_le(a, b))
}

/// Code `i` is the first of its signature.
pub open spec fn first_of_class(sp: Seq<Seq<u8>>, colors: nat, i: int) -> bool {
    forall|j: int| 0 <= j < i ==> count_signature(#[trigger] sp[j], colors) != count_signature(sp[i], colors)
}

/// Guesses tried on the full space: one per signature.
pub open spec fn root_guess_spec(sp: Seq<Seq<u8>>, colors: nat) -> Seq<u16> {
    Seq::new(sp.len(), |i: int| i as u16).filter(|i: u16| first_of_class(sp, colors, i as int))
}

/// `v` is the least total of a strategy for `c` whose guesses name codes
/// of the space.
pub open spec fn optimum(sp: Seq<Seq<u8>>, slots: nat, c: Seq<u16>, v: nat) -> bool {
    &&& sound_lower(sp, slots, c, v)
    &&& exists|g: Map<Seq<u16>, u16>| #[trigger] strategy_tree(sp, slots, g, c) matches Ok(t) && guesses_in(g, sp.len())
        && t.total == v
}

/// What a search of `c` under `limit` may answer: nothing where every
/// strategy costs at least `limit`; else a strategy under the limit that
/// some choice of guesses follows and that no strategy beats.
pub open spec fn search_answer(sp: Seq<Seq<u8>>, slots: nat, c: Seq<u16>, limit: nat, x: Option<Node>) -> bool {
    match x {
        None => sound_lower(sp, slots, c, limit),
        Some(node) => node.total < limit && realizes(sp, slots, c, node) && sound_lower(sp, slots, c, node.total as nat),
    }
}

/// The answer of a search is fixed by the optimum: nothing exactly when the
/// optimum reaches the limit, else a strategy that costs the optimum.
pub proof fn lemma_search_answer(sp: Seq<Seq<u8>>, slots: nat, c: Seq<u16>, limit: nat, x: Option<Node>, v: nat)
    requires
        optimum(sp, slots, c, v),
        search_answer(sp, slots, c, limit, x),
    ensures
        x is None <==> v >= limit,
        x matches Some(node) ==> node.total == v,
{
    let g0 = choose|g: Map<Seq<u16>, u16>| #[trigger] strategy_tree(sp, slots, g, c) matches Ok(t) && guesses_in(g, sp.len())
        && t.total == v;
    assert(strategy_tree(sp, slots, g0, c) is Ok);
    if let Some(node) = x {
        let g1 = choose|g: Map<Seq<u16>, u16>| #[trigger]
            strategy_tree(sp, slots, g, c) matches Ok(t) && guesses_in(g, sp.len()) && t.guess == node.guess
                && t.total <= node.total && t.worst <= node.worst && (exact_state(sp, slots, c) ==> t.total == node.total
                && t.worst == node.worst);
        assert(strategy_tree(sp, slots, g1, c) is Ok);
    }
}

/// Settings the optimizer handles.
pub open spec fn optimizable(settings: Settings) -> bool {
    &&& settings.repeats
    &&& 1 <= settings.slots <= 4
    &&& 1 <= settings.colors <= 6
}

/// Exact optimizer state.
pub struct Optimizer {
    pub settings: Settings,
    space: Vec<Vec<u8>>,
    feedback: Vec<u8>,
    nonterminal_branches: usize,
    root_guesses: Vec<u16>,
    memo: KeyMap<Entry>,
    tightened: KeyMap<()>,
    pub deadline: Option<Instant>,
    pub calls: u64,
}

impl Optimizer {
    /// The rules the optimizer was made with.
    pub closed spec fn rules(&self) -> Settings {
        self.settings
    }

    /// Number of progress checks made so far.
    pub closed spec fn call_count(&self) -> u64 {
        self.calls
    }

    /// A deadline is set.
    pub closed spec fn has_deadline(&self) -> bool {
        self.deadline is Some
    }

    /// The answer space.
    pub closed spec fn space_view(&self) -> Seq<Seq<u8>> {
        self.space.deep_view()
    }

    /// Number of codes.
    pub closed spec fn size(&self) -> nat {
        self.space@.len()
    }

    /// Memoized bounds by candidate set.
    pub closed spec fn memo_view(&self) -> Map<Seq<u16>, Entry> {
        self.memo.view()
    }

    /// Candidate sets whose one-ply bound has been computed.
    pub closed spec fn tightened_view(&self) -> Set<Seq<u16>> {
        self.tightened.view().dom()
    }

    /// Number of non-terminal feedback values.
    pub closed spec fn branches(&self) -> nat {
        self.nonterminal_branches as nat
    }

    /// Guesses tried on the full space.
    pub closed spec fn root_guess_view(&self) -> Seq<u16> {
        self.root_guesses@
    }

    pub closed spec fn wf(&self) -> bool {
        &&& optimizable(self.settings)
        &&& self.space.deep_view() == space_of(self.settings)
        &&& 1 <= self.space@.len() <= 1296
        &&& forall|i: int| 0 <= i < self.space@.len() ==> (#[trigger] self.space@[i])@.len() == self.settings.slots
        &&& self.feedback@.len() == self.space@.len() * self.space@.len()
        &&& forall|g: int, a: int|
            0 <= g < self.space@.len() && 0 <= a < self.space@.len() ==> #[trigger] self.feedback@[g
                * self.space@.len() + a] == fb_code(self.space.deep_view(), g, a)
        &&& self.nonterminal_branches == (self.settings.slots + 1) * (self.settings.slots + 2) / 2 - 2
        &&& forall|i: int| 0 <= i < self.root_guesses@.len() ==> (#[trigger] self.root_guesses@[i] as nat) < self.space@.len()
        &&& self.root_guesses@ == root_guess_spec(self.space.deep_view(), self.settings.colors as nat)
        &&& self.memo.wf()
        &&& self.tightened.wf()
        &&& forall|k: Seq<u16>| #[trigger] self.memo.view().contains_key(k) ==> ids_below(k, self.space@.len())
            && (self.memo.view()[k].upper matches Some(node) ==> (node.guess as nat) < self.space@.len() && node.worst <= k.len() && node.total < usize::MAX)
        &&& floored_memo(self.memo.view(), self.nonterminal_branches as nat)
        &&& forall|k: Seq<u16>| #[trigger] self.memo.view().contains_key(k) ==> 1 <= k.len()
    }

    /// The lower bound used for `c`: the memoized one, else the counting bound.
    pub open spec fn lower_spec(&self, c: Seq<u16>) -> nat {
        if self.memo_view().contains_key(c) {
            self.memo_view()[c].lower as nat
        } else {
            theoretical_lower_spec(c.len(), self.branches())
        }
    }

    /// The memoized strategy of `c`, if any.
    pub open spec fn upper_spec(&self, c: Seq<u16>) -> Option<Node> {
        if self.memo_view().contains_key(c) {
            self.memo_view()[c].upper
        } else {
            None
        }
    }

    /// Every memoized strategy is realized for its candidate set.
    pub open spec fn strategies_realized(&self) -> bool {
        memo_realized(self.space_view(), self.rules().slots as nat, self.memo_view())
    }

    /// `c` is a set of different candidates of the space: short of all of
    /// it, or all of it in id order.
    pub open spec fn proper_set(&self, c: Seq<u16>) -> bool {
        &&& c.no_duplicates()
        &&& 1 <= c.len()
        &&& c.len() < self.size() || c == all_ids(self.size())
        &&& ids_below(c, self.size())
    }

    /// The lower bound used for `c` is at most the cost of every strategy
    /// for `c` whose guesses name codes of the space.
    pub open spec fn lower_sound_at(&self, c: Seq<u16>) -> bool {
        sound_lower(self.space_view(), self.rules().slots as nat, c, self.lower_spec(c))
    }

    /// Every memoized state lists its candidates in increasing id order.
    pub open spec fn states_in_order(&self) -> bool {
        forall|k: Seq<u16>| #[trigger] self.memo_view().contains_key(k) ==> increasing(k)
    }

    /// Every memoized lower bound of a proper set is sound.
    pub open spec fn lowers_sound(&self) -> bool {
        forall|k: Seq<u16>| #[trigger] self.memo_view().contains_key(k) && self.proper_set(k) ==> self.lower_sound_at(k)
    }

    /// No lower bound of a proper set of `prev` went down in `self`.
    pub open spec fn lowers_grow(&self, prev: &Self) -> bool {
        forall|k: Seq<u16>| prev.proper_set(k) ==> prev.lower_spec(k) <= #[trigger] self.lower_spec(k)
    }

    /// With sound bounds and realized strategies, the bound of a proper set
    /// with a strategy is at most that strategy's total.
    pub proof fn lemma_bound_below_strategy(&self, c: Seq<u16>)
        requires
            self.wf(),
            self.lowers_sound(),
            self.strategies_realized(),
            self.proper_set(c),
            self.upper_spec(c) is Some,
        ensures
            self.lower_spec(c) <= self.upper_spec(c)->0.total,
    {
        self.lemma_lower_sound(c);
        let node = self.upper_spec(c)->0;
        assert(self.memo_view().contains_key(c));
        assert(realizes(self.space_view(), self.rules().slots as nat, c, node));
        let g = choose|g: Map<Seq<u16>, u16>| #[trigger]
            strategy_tree(self.space_view(), self.rules().slots as nat, g, c) matches Ok(t) && guesses_in(g, self.space_view().len())
                && t.guess == node.guess && t.total <= node.total && t.worst <= node.worst;
        assert(strategy_tree(self.space_view(), self.rules().slots as nat, g, c) is Ok);
    }

    /// With sound bounds and realized strategies, the bound used for a
    /// proper set is at most the total of every strategy for it; its stored
    /// strategy, if any, is followed by some choice of guesses naming codes
    /// of the space, within that strategy's total, and the bound is at most
    /// that total; a stored strategy that meets the bound is the cheapest.
    pub proof fn lemma_bounds_sound(&self, c: Seq<u16>)
        requires
            self.wf(),
            self.lowers_sound(),
            self.strategies_realized(),
            self.proper_set(c),
        ensures
            sound_lower(self.space_view(), self.rules().slots as nat, c, self.lower_spec(c)),
            self.upper_spec(c) matches Some(node) ==> realizes(self.space_view(), self.rules().slots as nat, c, node)
                && self.lower_spec(c) <= node.total && node.worst <= c.len() && (node.guess as nat) < self.size(),
            self.upper_spec(c) matches Some(node) ==> (self.lower_spec(c) == node.total ==> optimum(
                self.space_view(),
                self.rules().slots as nat,
                c,
                node.total as nat,
            )),
    {
        self.lemma_lower_sound(c);
        if self.upper_spec(c) is Some {
            self.lemma_bound_below_strategy(c);
            assert(self.memo_view().contains_key(c));
            let node = self.upper_spec(c)->0;
            let sp = self.space_view();
            let slots = self.rules().slots as nat;
            if self.lower_spec(c) == node.total {
                let g = choose|g: Map<Seq<u16>, u16>| #[trigger]
                    strategy_tree(sp, slots, g, c) matches Ok(t) && guesses_in(g, sp.len()) && t.guess == node.guess
                        && t.total <= node.total && t.worst <= node.worst && (exact_state(sp, slots, c) ==> t.total
                        == node.total && t.worst == node.worst);
                assert(strategy_tree(sp, slots, g, c) is Ok);
                assert(strategy_tree(sp, slots, g, c)->Ok_0.total == node.total);
            }
        }
    }

    /// The guesses `solve` tries for a proper set of three or more: every
    /// code, or on the whole space one per signature. A bound that holds
    /// after each of them holds after every code.
    proof fn lemma_guesses_cover(&self, c: Seq<u16>, guesses: Seq<u16>, l: nat)
        requires
            self.wf(),
            self.proper_set(c),
            c.len() >= 3,
            c.len() < self.size() ==> guesses == Seq::new(self.size(), |i: int| i as u16),
            c.len() == self.size() ==> guesses == self.root_guess_view(),
            forall|i: int| 0 <= i < guesses.len() ==> #[trigger] sound_via(self.space_view(), self.rules().slots as nat, c, guesses[i], l),
        ensures
            forall|x: u16| (x as int) < self.space_view().len() ==> #[trigger] sound_via(self.space_view(), self.rules().slots as nat, c, x, l),
    {
        let sp = self.space_view();
        let m = self.rules().slots as nat;
        let b = self.rules().colors as nat;
        assert(sp.len() == self.size());
        if c.len() < self.size() {
            assert forall|x: u16| (x as int) < sp.len() implies #[trigger] sound_via(sp, m, c, x, l) by {
                assert(guesses[x as int] == x);
            }
        } else {
            assert(c == all_ids(self.size()));
            assert(sp == odometer_space(b, m));
            lemma_power_one(m);
            assert(b >= 2);
            assert forall|i: int| 0 <= i < root_guess_spec(odometer_space(b, m), b).len() implies #[trigger] sound_via(
                odometer_space(b, m),
                m,
                all_ids(odometer_space(b, m).len()),
                root_guess_spec(odometer_space(b, m), b)[i],
                l,
            ) by {
                assert(guesses[i] == root_guess_spec(odometer_space(b, m), b)[i]);
            }
            lemma_root_guesses_cover(b, m, l);
        }
    }

    /// With every memoized bound sound, the bound used for any proper set is.
    proof fn lemma_lower_sound(&self, k: Seq<u16>)
        requires
            self.wf(),
            self.lowers_sound(),
            self.proper_set(k),
        ensures
            self.lower_sound_at(k),
    {
        if !self.memo_view().contains_key(k) {
            self.lemma_fresh_lower_sound(k);
        }
    }

    /// Storing an entry for `c` whose bound is sound when `c` is proper keeps
    /// every bound sound; one no lower than before keeps them growing.
    proof fn lemma_lowers_after_insert(&self, prev: &Self, c: Seq<u16>, e: Entry)
        requires
            prev.wf(),
            self.same_rules(prev),
            prev.lowers_sound(),
            self.memo_view() == prev.memo_view().insert(c, e),
            prev.proper_set(c) ==> sound_lower(prev.space_view(), prev.rules().slots as nat, c, e.lower as nat),
        ensures
            self.lowers_sound(),
            prev.proper_set(c) && e.lower >= prev.lower_spec(c) ==> self.lowers_grow(prev),
    {
        assert forall|k: Seq<u16>| #[trigger] self.memo_view().contains_key(k) && self.proper_set(k) implies self.lower_sound_at(k) by {
            if k != c {
                assert(prev.memo_view().contains_key(k));
            }
        }
        if prev.proper_set(c) && e.lower >= prev.lower_spec(c) {
            assert forall|k: Seq<u16>| prev.proper_set(k) implies prev.lower_spec(k) <= #[trigger] self.lower_spec(k) by {}
        }
    }

    /// Two states of one optimizer play by the same rules over the same
    /// space, with the same deadline or both with none.
    pub proof fn lemma_same_rules(&self, other: &Self)
        requires
            self.same_rules(other),
        ensures
            self.rules() == other.rules(),
            self.space_view() == other.space_view(),
            self.size() == other.size(),
            self.branches() == other.branches(),
            self.has_deadline() == other.has_deadline(),
    {
    }

    /// Bounds that grew from `a` to `b` and from `b` to `self` grew from `a`.
    proof fn lemma_grow_trans(&self, b: &Self, a: &Self)
        requires
            self.lowers_grow(b),
            b.lowers_grow(a),
            b.same_rules(a),
        ensures
            self.lowers_grow(a),
    {
        assert forall|k: Seq<u16>| a.proper_set(k) implies a.lower_spec(k) <= #[trigger] self.lower_spec(k) by {
            assert(b.proper_set(k));
            assert(a.lower_spec(k) <= b.lower_spec(k));
        }
    }

    /// Storing an entry for `c` no lower than the bound used before, when
    /// `c` is proper, keeps every bound growing.
    proof fn lemma_grow_insert(&self, prev: &Self, c: Seq<u16>, e: Entry)
        requires
            self.same_rules(prev),
            self.memo_view() == prev.memo_view().insert(c, e),
            prev.proper_set(c) ==> e.lower >= prev.lower_spec(c),
        ensures
            self.lowers_grow(prev),
    {
        assert forall|k: Seq<u16>| prev.proper_set(k) implies prev.lower_spec(k) <= #[trigger] self.lower_spec(k) by {}
    }

    /// A bucket of a proper set that is smaller than it is proper.
    proof fn lemma_child_proper(&self, c: Seq<u16>, x: u16, y: Seq<u16>)
        requires
            self.wf(),
            self.proper_set(c),
            (x as nat) < self.size(),
            children_spec(self.space_view(), self.rules().slots as nat, c, x as int).contains(y),
            y.len() < c.len(),
        ensures
            self.proper_set(y),
    {
        self.lemma_distinct_codes(c);
        lemma_children_shaped(self.space_view(), self.rules().slots as nat, c, x as int);
        lemma_distinct_no_dup(self.space_view(), y);
    }

    /// Different ids of the space name different codes, all with the rules'
    /// number of slots.
    pub proof fn lemma_distinct_codes(&self, c: Seq<u16>)
        requires
            self.wf(),
            c.no_duplicates(),
            ids_below(c, self.size()),
        ensures
            distinct_codes(self.space_view(), c),
            shaped(self.space_view(), self.rules().slots as nat, c),
            c.len() <= self.size(),
            self.branches() == possible_count(self.rules().slots as nat, 25),
    {
        let sp = self.space_view();
        let slots = self.rules().slots as nat;
        let colors = self.rules().colors as nat;
        assert(sp == odometer_space(colors, slots));
        assert forall|i: int, j: int| 0 <= i < j < c.len() implies sp[#[trigger] c[i] as int] != sp[#[trigger] c[j] as int] by {
            if sp[c[i] as int] == sp[c[j] as int] {
                assert(sp[c[i] as int] == odometer_code(c[i] as nat, colors, slots));
                assert(sp[c[j] as int] == odometer_code(c[j] as nat, colors, slots));
                lemma_odometer_injective(c[i] as nat, c[j] as nat, colors, slots);
            }
        }
        assert forall|i: int| 0 <= i < sp.len() implies (#[trigger] sp[i]).len() == slots by {
            assert(sp[i] == self.space@[i]@);
        }
        lemma_ids_len(c, self.size());
        lemma_possible_count(slots);
    }

    /// However the guesses are chosen, each naming a code of the space,
    /// following them from a set of different candidates costs at least the
    /// counting bound for its size: the bound `lower` gives for a set with
    /// nothing memoized.
    pub proof fn lemma_counting_bound(&self, gs: Map<Seq<u16>, u16>, c: Seq<u16>)
        requires
            self.wf(),
            c.no_duplicates(),
            1 <= c.len(),
            ids_below(c, self.size()),
            guesses_in(gs, self.size()),
        ensures
            strategy_tree(self.space_view(), self.rules().slots as nat, gs, c) matches Ok(t) ==> t.total
                >= theoretical_lower_spec(c.len(), self.branches()),
            !self.memo_view().contains_key(c) ==> (strategy_tree(self.space_view(), self.rules().slots as nat, gs, c) matches Ok(
                t,
            ) ==> self.lower_spec(c) <= t.total),
    {
        self.lemma_distinct_codes(c);
        lemma_tree_cost(self.space_view(), self.rules().slots as nat, gs, c);
    }

    /// The counting bound of a set with nothing memoized is a sound lower bound.
    proof fn lemma_fresh_lower_sound(&self, c: Seq<u16>)
        requires
            self.wf(),
            c.no_duplicates(),
            1 <= c.len(),
            ids_below(c, self.size()),
            !self.memo_view().contains_key(c),
        ensures
            sound_lower(self.space_view(), self.rules().slots as nat, c, self.lower_spec(c)),
    {
        let sp = self.space_view();
        let slots = self.rules().slots as nat;
        assert forall|g: Map<Seq<u16>, u16>| guesses_in(g, sp.len()) && #[trigger] strategy_tree(sp, slots, g, c) is Ok
            implies strategy_tree(sp, slots, g, c)->Ok_0.total >= self.lower_spec(c) by {
            self.lemma_counting_bound(g, c);
        }
    }
}

/// Feedback codes of every guess against every answer, row by row.
fn feedback_table(space: &Vec<Vec<u8>>, slots: usize) -> (t: Vec<u8>)
    requires
        1 <= space@.len() <= 1296,
        slots <= 4,
        forall|i: int| 0 <= i < space@.len() ==> (#[trigger] space@[i])@.len() == slots,
    ensures
        t@.len() == space@.len() * space@.len(),
        forall|g: int, a: int|
            0 <= g < space@.len() && 0 <= a < space@.len() ==> #[trigger] t@[g * space@.len() + a]
                == fb_code(space.deep_view(), g, a),
{
    let n = space.len();
    let ghost sp = space.deep_view();
    let mut t: Vec<u8> = Vec::new();
    let mut g: usize = 0;
    while g < n
        invariant
            n == space@.len(),
            1 <= n <= 1296,
            slots <= 4,
            sp == space.deep_view(),
            forall|i: int| 0 <= i < n ==> (#[trigger] space@[i])@.len() == slots,
            g <= n,
            t@.len() == g * n,
            forall|g2: int, a: int| 0 <= g2 < g && 0 <= a < n ==> #[trigger] t@[g2 * n + a] == fb_code(sp, g2, a),
        decreases n - g,
    {
        let mut a: usize = 0;
        while a < n
            invariant
                n == space@.len(),
                1 <= n <= 1296,
                slots <= 4,
                sp == space.deep_view(),
                forall|i: int| 0 <= i < n ==> (#[trigger] space@[i])@.len() == slots,
                g < n,
                a <= n,
                t@.len() == g * n + a,
                forall|g2: int, a2: int| 0 <= g2 < g && 0 <= a2 < n ==> #[trigger] t@[g2 * n + a2] == fb_code(sp, g2, a2),
                forall|a2: int| 0 <= a2 < a ==> #[trigger] t@[g * n + a2] == fb_code(sp, g as int, a2),
            decreases n - a,
        {
            assert(sp[g as int] == space@[g as int]@ && sp[a as int] == space@[a as int]@);
            let r = judge(space[g].as_slice(), space[a].as_slice());
            let code = r.0 * 5 + r.1;
            let ghost before = t@;
            t.push(code);
            proof {
                assert(t@[g * n + a] == code);
                assert forall|g2: int, a2: int| 0 <= g2 < g && 0 <= a2 < n implies #[trigger] t@[g2 * n + a2] == fb_code(sp, g2, a2) by {
                    assert(g2 * n + a2 < g * n) by (nonlinear_arith)
                        requires
                            0 <= g2 < g,
                            0 <= a2 < n,
                    ;
                    assert(t@[g2 * n + a2] == before[g2 * n + a2]);
                }
            }
            a += 1;
        }
        assert((g + 1) * n == g * n + n) by (nonlinear_arith);
        proof {
            assert forall|g2: int, a2: int| 0 <= g2 < g + 1 && 0 <= a2 < n implies #[trigger] t@[g2 * n + a2] == fb_code(sp, g2, a2) by {
                if g2 < g {
                } else {
                    assert(t@[g * n + a2] == fb_code(sp, g as int, a2));
                }
            }
        }
        g += 1;
    }
    t
}

/// Sorted colour counts of `code`.
fn signature_of(code: &Vec<u8>, colors: usize) -> (sig: Vec<u16>)
    requires
        colors <= 6,
        code@.len() <= 4,
        forall|i: int| 0 <= i < code@.len() ==> (#[trigger] code@[i] as int) < colors,
    ensures
        sig@ == count_signature(code@, colors as nat),
{
    let mut counts: Vec<u16> = Vec::new();
    let mut col: usize = 0;
    while col < colors
        invariant
            col <= colors <= 6,
            code@.len() <= 4,
            counts@.len() == col,
            forall|q: int| 0 <= q < col ==> #[trigger] counts@[q] == count_color(code@, q) as u16,
        decreases colors - col,
    {
        let mut k: u16 = 0;
        let mut i: usize = 0;
        while i < code.len()
            invariant
                i <= code@.len() <= 4,
                k as nat == count_color(code@.take(i as int), col as int),
                k <= i,
            decreases code@.len() - i,
        {
            assert(code@.take(i + 1).drop_last() =~= code@.take(i as int));
            if code[i] as usize == col {
                k += 1;
            }
            i += 1;
        }
        assert(code@.take(code@.len() as int) =~= code@);
        counts.push(k);
        col += 1;
    }
    let ghost cs = Seq::new(colors as nat, |q: int| count_color(code@, q) as u16);
    assert(counts@ =~= cs);
    let mut sig: Vec<u16> = Vec::new();
    let mut i: usize = 0;
    proof {
        sig@.to_multiset_ensures();
        cs.take(0).to_multiset_ensures();
        assert(cs.take(0) =~= Seq::<u16>::empty());
        assert(sig@.to_multiset() =~= cs.take(0).to_multiset());
    }
    while i < counts.len()
        invariant
            i <= counts@.len(),
            counts@ == cs,
            crate::policy::ascending(sig@),
            sig@.to_multiset() == cs.take(i as int).to_multiset(),
        decreases counts@.len() - i,
    {
        insert_sorted(&mut sig, counts[i]);
        proof {
            assert(cs.take(i + 1) =~= cs.take(i as int).push(cs[i as int]));
            vstd::seq_lib::to_multiset_build(cs.take(i as int), cs[i as int]);
        }
        i += 1;
    }
    proof {
        assert(cs.take(counts@.len() as int) =~= cs);
        assert(vstd::relations::sorted_by(sig@, |a: u16, b: u16| id_le(a, b))) by {
            assert forall|a: int, b: int| 0 <= a < b < sig@.len() implies id_le(#[trigger] sig@[a], #[trigger] sig@[b]) by {
                assert(sig@[a] <= sig@[b]);
            }
        }
        assert(vstd::relations::total_ordering(|a: u16, b: u16| id_le(a, b)));
        cs.lemma_sort_by_ensures(|a: u16, b: u16| id_le(a, b));
        vstd::seq_lib::lemma_sorted_unique(sig@, count_signature(code@, colors as nat), |a: u16, b: u16| id_le(a, b));
    }
    sig
}

impl Optimizer {
    pub fn new(settings: Settings) -> (o: Self)
        requires
            optimizable(settings),
        ensures
            o.wf(),
            o.rules() == settings,
            o.space_view() == space_of(settings),
            o.size() == power(settings.colors as nat, settings.slots as nat),
            o.memo_view() == Map::<Seq<u16>, Entry>::empty(),
            o.strategies_realized(),
            o.lowers_sound(),
            o.tightened_view() == Set::<Seq<u16>>::empty(),
            o.root_guess_view() == root_guess_spec(space_of(settings), settings.colors as nat),
            !o.has_deadline(),
            o.call_count() == 0,
    {
        let space = enumerate_space(&settings);
        let ghost sp = space.deep_view();
        proof {
            lemma_space_shape(settings);
            crate::solver::lemma_space_size_bound(settings.colors as nat, settings.slots as nat);
            crate::solver::lemma_power_base_mono(settings.colors as nat, 6, settings.slots as nat);
            crate::solver::lemma_power_exp_mono(6, settings.slots as nat, 4);
            assert(power(6, 4) == 1296) by {
                reveal_with_fuel(power, 5);
            }
            assert forall|i: int| 0 <= i < space@.len() implies (#[trigger] space@[i])@.len() == settings.slots by {
                assert(sp[i] == space@[i]@);
                assert(sp.contains(sp[i]));
            }
            assert(sp.len() == power(settings.colors as nat, settings.slots as nat));
            assert(space@.len() == sp.len());
        }
        let feedback = feedback_table(&space, settings.slots);
        let mut classes: KeyMap<()> = KeyMap::new();
        let mut root_guesses: Vec<u16> = Vec::new();
        let ghost pred = |i: u16| first_of_class(sp, settings.colors as nat, i as int);
        let ghost ids = Seq::new(sp.len(), |i: int| i as u16);
        let mut id: usize = 0;
        while id < space.len()
            invariant
                sp == space.deep_view(),
                sp == space_of(settings),
                optimizable(settings),
                1 <= space@.len() <= 1296,
                forall|i: int| 0 <= i < space@.len() ==> (#[trigger] space@[i])@.len() == settings.slots,
                forall|x: Seq<u8>| #[trigger] sp.contains(x) ==> x.len() == settings.slots
                    && forall|q: int| 0 <= q < x.len() ==> (#[trigger] x[q] as int) < settings.colors,
                ids == Seq::new(sp.len(), |i: int| i as u16),
                pred == (|i: u16| first_of_class(sp, settings.colors as nat, i as int)),
                id <= space@.len(),
                classes.wf(),
                forall|k: Seq<u16>| #[trigger] classes.view().contains_key(k) <==> exists|j: int| 0 <= j < id && k == count_signature(#[trigger] sp[j], settings.colors as nat),
                root_guesses@ == ids.take(id as int).filter(pred),
            decreases space@.len() - id,
        {
            assert(sp[id as int] == space@[id as int]@);
            assert(sp.contains(sp[id as int]));
            let sig = signature_of(&space[id], settings.colors);
            let known = classes.contains_key(sig.as_slice());
            assert(ids.take(id + 1).drop_last() =~= ids.take(id as int));
            assert(ids.take(id + 1).last() == id as u16);
            reveal_with_fuel(Seq::filter, 1);
            proof {
                if known {
                    let j = choose|j: int| 0 <= j < id && sig@ == count_signature(#[trigger] sp[j], settings.colors as nat);
                    assert(!first_of_class(sp, settings.colors as nat, id as int));
                } else {
                    assert(first_of_class(sp, settings.colors as nat, id as int));
                }
            }
            if !known {
                classes.insert(sig, ());
                root_guesses.push(id as u16);
            }
            proof {
                assert forall|k: Seq<u16>| #[trigger] classes.view().contains_key(k) <==> exists|j: int| 0 <= j < id + 1 && k == count_signature(#[trigger] sp[j], settings.colors as nat) by {
                    if k == count_signature(sp[id as int], settings.colors as nat) {
                        assert(0 <= id < id + 1 && k == count_signature(sp[id as int], settings.colors as nat));
                    }
                    if exists|j: int| 0 <= j < id + 1 && k == count_signature(#[trigger] sp[j], settings.colors as nat) {
                        let j = choose|j: int| 0 <= j < id + 1 && k == count_signature(#[trigger] sp[j], settings.colors as nat);
                        if j < id {
                            assert(0 <= j < id && k == count_signature(sp[j], settings.colors as nat));
                        }
                    }
                }
            }
            id += 1;
        }
        assert(ids.take(space@.len() as int) =~= ids);
        let s = settings.slots;
        assert((s + 1) * (s + 2) >= 6 && (s + 1) * (s + 2) <= 30) by (nonlinear_arith)
            requires
                1 <= s <= 4,
        ;
        let o = Optimizer {
            settings,
            space,
            feedback,
            nonterminal_branches: (s + 1) * (s + 2) / 2 - 2,
            root_guesses,
            memo: KeyMap::new(),
            tightened: KeyMap::new(),
            deadline: None,
            calls: 0,
        };
        proof {
            assert forall|i: int| 0 <= i < o.root_guesses@.len() implies (#[trigger] o.root_guesses@[i] as nat) < o.space@.len() by {
                let x = o.root_guesses@[i];
                ids.filter(pred).lemma_filter_contains_rev(pred, x);
                ids.lemma_filter_contains_rev(pred, x);
            }
            assert(o.tightened_view() =~= Set::<Seq<u16>>::empty());
        }
        o
    }
}

impl Optimizer {
    /// Every candidate id, in order: the full answer space.
    pub fn root(&self) -> (r: Vec<u16>)
        requires
            self.wf(),
        ensures
            r@ == Seq::new(self.size(), |i: int| i as u16),
    {
        let n = self.space.len();
        let mut r: Vec<u16> = Vec::new();
        let mut i: usize = 0;
        while i < n
            invariant
                n == self.size(),
                n <= 1296,
                i <= n,
                r@ =~= Seq::new(i as nat, |q: int| q as u16),
            decreases n - i,
        {
            r.push(i as u16);
            i += 1;
        }
        r
    }

    /// Number of memoized candidate sets.
    pub fn entries(&self) -> (n: usize)
        requires
            self.wf(),
        ensures
            n == self.memo_view().dom().len(),
    {
        self.memo.len()
    }

    /// The counting lower bound for `n` candidates.
    fn theoretical_lower(&self, n: usize) -> (cost: usize)
        requires
            self.wf(),
            n * (n + 1) <= usize::MAX,
        ensures
            cost == theoretical_lower_spec(n as nat, self.branches()),
    {
        let b = self.nonterminal_branches;
        let ghost n0 = n as nat;
        let mut capacity: usize = 1;
        let mut depth: usize = 1;
        let mut cost: usize = 0;
        let mut rest: usize = n;
        while rest > 0
            invariant
                n0 * (n0 + 1) <= usize::MAX,
                rest <= n0,
                capacity >= 1,
                1 <= depth <= n0 - rest + 1,
                cost <= (n0 - rest) * (depth - 1),
                cost + tl_from(rest as nat, capacity as nat, depth as nat, b as nat) == tl_from(n0, 1, 1, b as nat),
            decreases rest,
        {
            let take = if capacity < rest {
                capacity
            } else {
                rest
            };
            proof {
                assert(depth * take <= (n0 + 1) * n0) by (nonlinear_arith)
                    requires
                        depth <= n0 + 1,
                        take <= n0,
                ;
                assert(cost + depth * take <= (n0 - rest + take) * depth) by (nonlinear_arith)
                    requires
                        cost <= (n0 - rest) * (depth - 1),
                        depth >= 1,
                        take >= 0,
                        n0 >= rest,
                ;
                assert((n0 - rest + take) * depth <= n0 * (n0 + 1)) by (nonlinear_arith)
                    requires
                        n0 - rest + take <= n0,
                        depth <= n0 + 1,
                        n0 >= rest,
                ;
            }
            cost = cost + depth * take;
            rest = rest - take;
            proof {
                if b > 0 && capacity > usize::MAX / b {
                    assert(capacity * b > usize::MAX) by (nonlinear_arith)
                        requires
                            b > 0,
                            capacity > usize::MAX / b,
                    ;
                } else if b > 0 {
                    assert(capacity * b <= usize::MAX) by (nonlinear_arith)
                        requires
                            b > 0,
                            capacity <= usize::MAX / b,
                    ;
                } else {
                    assert(capacity * b == 0) by (nonlinear_arith)
                        requires
                            b == 0,
                    ;
                }
                assert(n0 + 1 <= n0 * (n0 + 1)) by (nonlinear_arith)
                    requires
                        n0 >= 1,
                ;
            }
            let next = if b > 0 && capacity > usize::MAX / b {
                usize::MAX
            } else {
                capacity * b
            };
            capacity = if next >= 1 {
                next
            } else {
                1
            };
            depth = depth + 1;
        }
        cost
    }

    /// The lower bound used for `c`.
    pub fn lower(&self, c: &[u16]) -> (l: usize)
        requires
            self.wf(),
            c@.len() * (c@.len() + 1) <= usize::MAX,
        ensures
            l == self.lower_spec(c@),
    {
        match self.memo.get(c) {
            Some(e) => e.lower,
            None => self.theoretical_lower(c.len()),
        }
    }

    /// Lower bound and best known strategy of `c`.
    pub fn bounds(&self, c: &[u16]) -> (r: (usize, Option<Node>))
        requires
            self.wf(),
            c@.len() * (c@.len() + 1) <= usize::MAX,
        ensures
            r.0 == self.lower_spec(c@),
            r.1 == self.upper_spec(c@),
    {
        let l = self.lower(c);
        let u = match self.memo.get(c) {
            Some(e) => e.upper,
            None => None,
        };
        (l, u)
    }

    /// The best known strategy of `c` meets its lower bound.
    pub fn is_proven(&self, c: &[u16]) -> (b: bool)
        requires
            self.wf(),
            c@.len() * (c@.len() + 1) <= usize::MAX,
        ensures
            b == (self.upper_spec(c@) matches Some(node) && self.lower_spec(c@) == node.total),
    {
        let (lower, upper) = self.bounds(c);
        match upper {
            Some(node) => lower == node.total,
            None => false,
        }
    }

    /// The non-empty, non-terminal feedback buckets of `guess` over `c`, in
    /// feedback order.
    fn children(&self, c: &[u16], guess: u16) -> (out: Vec<Vec<u16>>)
        requires
            self.wf(),
            ids_below(c@, self.size()),
            (guess as nat) < self.size(),
        ensures
            out.deep_view() == children_spec(self.space_view(), self.rules().slots as nat, c@, guess as int),
            sum_lens(out.deep_view()) <= c@.len(),
    {
        let n = self.space.len();
        let slots = self.settings.slots;
        let ghost sp = self.space.deep_view();
        let mut buckets: Vec<Vec<u16>> = Vec::new();
        let mut f: usize = 0;
        while f < 25
            invariant
                f <= 25,
                buckets@.len() == f,
                forall|q: int| 0 <= q < f ==> (#[trigger] buckets@[q])@.len() == 0,
            decreases 25 - f,
        {
            buckets.push(Vec::new());
            f += 1;
        }
        assert(sum_lens(views(buckets@)) == 0) by {
            lemma_sum_lens_empty(views(buckets@));
        }
        let mut i: usize = 0;
        while i < c.len()
            invariant
                self.wf(),
                n == self.size(),
                slots == self.rules().slots,
                sp == self.space_view(),
                ids_below(c@, n as nat),
                (guess as nat) < n,
                i <= c@.len(),
                buckets@.len() == 25,
                forall|q: int| 0 <= q < 25 ==> (#[trigger] buckets@[q])@ == bucket(sp, slots as nat, c@.take(i as int), guess as int, q),
                sum_lens(views(buckets@)) <= i,
            decreases c@.len() - i,
        {
            let id = c[i];
            proof {
                assert((guess as int) * (n as int) + (id as int) < (n as int) * (n as int)) by (nonlinear_arith)
                    requires
                        (guess as int) < (n as int),
                        (id as int) < (n as int),
                ;
                assert((n as int) * (n as int) <= 1296 * 1296) by (nonlinear_arith)
                    requires
                        (n as int) <= 1296,
                        (n as int) >= 0,
                ;
                assert(sp[guess as int] == self.space@[guess as int]@);
                assert(sp[id as int] == self.space@[id as int]@);
                lemma_feedback_bounds(sp[guess as int], sp[id as int]);
            }
            let code = self.feedback[guess as usize * n + id as usize] as usize;
            assert(code == fb_code(sp, guess as int, id as int));
            assert(code < 25);
            let ghost before = views(buckets@);
            if code != slots * 5 {
                buckets[code].push(id);
                proof {
                    assert(views(buckets@) =~= before.update(code as int, before[code as int].push(id)));
                    lemma_sum_lens_update(before, code as int, before[code as int].push(id));
                }
            }
            proof {
                let pre = c@.take(i as int);
                assert(c@.take(i + 1) =~= pre.push(id));
                assert forall|q: int| 0 <= q < 25 implies (#[trigger] buckets@[q])@ == bucket(sp, slots as nat, c@.take(i + 1), guess as int, q) by {
                    reveal_with_fuel(Seq::filter, 1);
                    assert(c@.take(i + 1).drop_last() =~= pre);
                }
            }
            i += 1;
        }
        assert(c@.take(c@.len() as int) =~= c@);
        let ghost all = Seq::new(25, |q: int| bucket(sp, slots as nat, c@, guess as int, q));
        assert forall|q: int| 0 <= q < 25 implies #[trigger] buckets.deep_view()[q] == all[q] by {
            assert(buckets.deep_view()[q] =~= buckets@[q]@);
        }
        assert(buckets.deep_view() =~= all);
        assert(views(buckets@) =~= all);
        let mut out: Vec<Vec<u16>> = Vec::new();
        let mut f: usize = 0;
        while f < 25
            invariant
                buckets@.len() == 25,
                buckets.deep_view() == all,
                f <= 25,
                out.deep_view() =~= all.take(f as int).filter(|b: Seq<u16>| b.len() > 0),
                sum_lens(out.deep_view()) == sum_lens(all.take(f as int)),
            decreases 25 - f,
        {
            let ghost before = out.deep_view();
            assert(all.take(f + 1).drop_last() =~= all.take(f as int));
            assert(all[f as int] == buckets@[f as int]@);
            reveal_with_fuel(Seq::filter, 1);
            if buckets[f].len() > 0 {
                let b = buckets[f].clone();
                assert(b@ =~= buckets@[f as int]@);
                assert(b.deep_view() =~= b@);
                out.push(b);
                assert(out.deep_view() =~= before.push(all[f as int]));
                assert(out.deep_view().drop_last() =~= before);
            }
            assert(all.take(f + 1).last() == all[f as int]);
            f += 1;
        }
        assert(all.take(25) =~= all);
        assert(sum_lens(all) <= c@.len());
        out
    }
}

/// The contents of a list of vectors.
pub open spec fn views(b: Seq<Vec<u16>>) -> Seq<Seq<u16>> {
    Seq::new(b.len(), |i: int| b[i]@)
}

/// Total length of a list of candidate sets.
pub open spec fn sum_lens(s: Seq<Seq<u16>>) -> nat
    decreases s.len(),
{
    if s.len() == 0 {
        0
    } else {
        sum_lens(s.drop_last()) + s.last().len()
    }
}

proof fn lemma_sum_lens_empty(s: Seq<Seq<u16>>)
    requires
        forall|i: int| 0 <= i < s.len() ==> (#[trigger] s[i]).len() == 0,
    ensures
        sum_lens(s) == 0,
    decreases s.len(),
{
    if s.len() > 0 {
        lemma_sum_lens_empty(s.drop_last());
    }
}

pub proof fn lemma_sum_lens_update(s: Seq<Seq<u16>>, i: int, x: Seq<u16>)
    requires
        0 <= i < s.len(),
    ensures
        sum_lens(s.update(i, x)) + s[i].len() == sum_lens(s) + x.len(),
    decreases s.len(),
{
    if i < s.len() - 1 {
        assert(s.update(i, x).drop_last() =~= s.drop_last().update(i, x));
        lemma_sum_lens_update(s.drop_last(), i, x);
    } else {
        assert(s.update(i, x).drop_last() =~= s.drop_last());
    }
}

/// `b` holds the same entries as `a` for every set larger than `l`.
pub open spec fn same_above(a: Map<Seq<u16>, Entry>, b: Map<Seq<u16>, Entry>, l: nat) -> bool {
    forall|k: Seq<u16>|
        #![trigger b.contains_key(k)]
        #![trigger a.contains_key(k)]
        k.len() > l ==> b.contains_key(k) == a.contains_key(k) && (a.contains_key(k) ==> b[k] == a[k])
}

proof fn lemma_same_above_trans(a: Map<Seq<u16>, Entry>, b: Map<Seq<u16>, Entry>, c: Map<Seq<u16>, Entry>, l1: nat, l2: nat, l: nat)
    requires
        same_above(a, b, l1),
        same_above(b, c, l2),
        l1 <= l,
        l2 <= l,
    ensures
        same_above(a, c, l),
{
    assert forall|k: Seq<u16>| k.len() > l implies #[trigger] c.contains_key(k) == a.contains_key(k) && (a.contains_key(k)
        ==> c[k] == a[k]) by {
        assert(b.contains_key(k) == a.contains_key(k));
    }
}

/// Memoized strategies are never dropped: every key stays, and a key with a
/// strategy keeps one. For a set of more than two candidates the lower bound
/// does not go down and the strategy's total does not go up.
pub open spec fn keeps_strategies(old: Map<Seq<u16>, Entry>, new: Map<Seq<u16>, Entry>) -> bool {
    forall|k: Seq<u16>| #[trigger] old.contains_key(k) ==> new.contains_key(k) && (k.len() > 2 ==> new[k].lower >= old[k].lower)
        && (old[k].upper is Some ==> new[k].upper is Some && (k.len() > 2 ==> new[k].upper->0.total <= old[k].upper->0.total))
}

impl Optimizer {
    /// The fixed parts of the state are the same in `self` and `other`.
    pub closed spec fn same_rules(&self, other: &Self) -> bool {
        &&& self.settings == other.settings
        &&& self.space@ == other.space@
        &&& self.space.deep_view() == other.space.deep_view()
        &&& self.feedback@ == other.feedback@
        &&& self.nonterminal_branches == other.nonterminal_branches
        &&& self.root_guesses@ == other.root_guesses@
        &&& self.deadline == other.deadline
    }

    /// Counts a unit of search work; every 1024th one checks the deadline.
    fn tick(&mut self) -> (r: Result<(), Interrupted>)
        requires
            old(self).wf(),
        ensures
            final(self).wf(),
            final(self).same_rules(old(self)),
            final(self).memo_view() == old(self).memo_view(),
            final(self).tightened_view() == old(self).tightened_view(),
            final(self).call_count() == (if old(self).call_count() == u64::MAX {
                0
            } else {
                old(self).call_count() + 1
            }),
            r is Err ==> old(self).has_deadline() && final(self).call_count() % 1024 == 1,
            !old(self).has_deadline() ==> r is Ok,
            final(self).call_count() % 1024 != 1 ==> r is Ok,
    {
        self.calls = self.calls.wrapping_add(1);
        if self.calls % 1024 == 1 {
            match &self.deadline {
                Some(d) => {
                    let now = clock_now();
                    if clock_reached(&now, d) {
                        return Err(Interrupted);
                    }
                },
                None => {},
            }
        }
        Ok(())
    }

    /// Records `node` as the strategy of `c` unless a cheaper one is known.
    fn save_upper(&mut self, c: &[u16], node: Node)
        requires
            old(self).wf(),
            1 <= c@.len() <= 1296,
            ids_below(c@, old(self).size()),
            (node.guess as nat) < old(self).size(),
            node.worst <= c@.len(),
            node.total < usize::MAX,
        ensures
            final(self).wf(),
            final(self).same_rules(old(self)),
            final(self).tightened_view() == old(self).tightened_view(),
            final(self).memo_view() == old(self).memo_view().insert(
                c@,
                Entry {
                    lower: old(self).lower_spec(c@) as usize,
                    upper: match old(self).upper_spec(c@) {
                        Some(prev) => if node.total < prev.total {
                            Some(node)
                        } else {
                            Some(prev)
                        },
                        None => Some(node),
                    },
                },
            ),
            final(self).lower_spec(c@) == old(self).lower_spec(c@),
            old(self).lowers_sound() ==> final(self).lowers_sound(),
            final(self).lowers_grow(old(self)),
    {
        proof { lemma_count_fits(c@.len()); }
        let lower = self.lower(c);
        let mut entry = match self.memo.get(c) {
            Some(e) => *e,
            None => Entry { lower, upper: None },
        };
        let replace = match entry.upper {
            None => true,
            Some(old_node) => node.total < old_node.total,
        };
        if replace {
            entry.upper = Some(node);
        }
        let key = slice_to_vec(c);
        self.memo.insert(key, entry);
        proof {
            assert forall|k: Seq<u16>| #[trigger] self.memo.view().contains_key(k) implies ids_below(k, self.space@.len())
                && (self.memo.view()[k].upper matches Some(nd) ==> (nd.guess as nat) < self.space@.len() && nd.worst <= k.len() && nd.total < usize::MAX) by {
                if k != c@ {
                    assert(old(self).memo.view().contains_key(k));
                }
            }
            if old(self).lowers_sound() {
                if old(self).proper_set(c@) {
                    old(self).lemma_lower_sound(c@);
                }
                self.lemma_lowers_after_insert(old(self), c@, entry);
            }
            assert forall|k: Seq<u16>| old(self).proper_set(k) implies old(self).lower_spec(k) <= #[trigger] self.lower_spec(k) by {}
        }
    }
}

/// A vector with the elements of `s`.
fn slice_to_vec(s: &[u16]) -> (v: Vec<u16>)
    ensures
        v@ == s@,
{
    let mut v: Vec<u16> = Vec::new();
    let mut i: usize = 0;
    while i < s.len()
        invariant
            i <= s@.len(),
            v@ =~= s@.take(i as int),
        decreases s@.len() - i,
    {
        v.push(s[i]);
        i += 1;
    }
    assert(s@.take(s@.len() as int) =~= s@);
    v
}

pub open spec fn sum_usize(s: Seq<usize>) -> nat
    decreases s.len(),
{
    if s.len() == 0 {
        0
    } else {
        sum_usize(s.drop_last()) + s.last() as nat
    }
}

proof fn lemma_sum_update(s: Seq<usize>, i: int, v: usize)
    requires
        0 <= i < s.len(),
    ensures
        sum_usize(s.update(i, v)) + s[i] == sum_usize(s) + v,
    decreases s.len(),
{
    if i < s.len() - 1 {
        assert(s.update(i, v).drop_last() =~= s.drop_last().update(i, v));
        lemma_sum_update(s.drop_last(), i, v);
    } else {
        assert(s.update(i, v).drop_last() =~= s.drop_last());
    }
}

proof fn lemma_sum_bounds_each(s: Seq<usize>, i: int)
    requires
        0 <= i < s.len(),
    ensures
        s[i] <= sum_usize(s),
    decreases s.len(),
{
    if i < s.len() - 1 {
        lemma_sum_bounds_each(s.drop_last(), i);
    }
}

impl Optimizer {
    /// One-ply lookahead: raises the lower bound of `c` to the best counting
    /// bound reachable in one guess. Done at most once per candidate set.
    pub fn tighten_one_ply(&mut self, c: &[u16])
        requires
            old(self).wf(),
            (c@.len() + 1) * (c@.len() + 2) <= usize::MAX,
            ids_below(c@, old(self).size()),
        ensures
            final(self).wf(),
            final(self).same_rules(old(self)),
            keeps_strategies(old(self).memo_view(), final(self).memo_view()),
            forall|k: Seq<u16>| #[trigger] final(self).memo_view().contains_key(k) ==> final(self).memo_view()[k].upper == old(self).upper_spec(k),
            forall|k: Seq<u16>| #[trigger] final(self).memo_view().contains_key(k) && k != c@ ==> old(self).memo_view().contains_key(k) && final(self).memo_view()[k] == old(self).memo_view()[k],
            old(self).strategies_realized() ==> final(self).strategies_realized(),
            c@.no_duplicates() && sound_lower(old(self).space_view(), old(self).rules().slots as nat, c@, old(self).lower_spec(c@))
                ==> sound_lower(old(self).space_view(), old(self).rules().slots as nat, c@, final(self).lower_spec(c@)),
            c@.no_duplicates() && 1 <= c@.len() && !old(self).memo_view().contains_key(c@) ==> sound_lower(
                old(self).space_view(),
                old(self).rules().slots as nat,
                c@,
                final(self).lower_spec(c@),
            ),
            old(self).lowers_sound() ==> final(self).lowers_sound(),
            final(self).lowers_grow(old(self)),
            old(self).states_in_order() && increasing(c@) ==> final(self).states_in_order(),
            final(self).rules() == old(self).rules(),
            final(self).space_view() == old(self).space_view(),
            final(self).size() == old(self).size(),
            if c@.len() > 2 && !(old(self).upper_spec(c@) matches Some(node) && old(self).lower_spec(c@) == node.total)
                && !old(self).tightened_view().contains(c@) {
                &&& final(self).memo_view().contains_key(c@)
                &&& final(self).lower_spec(c@) == vstd::math::max(
                    old(self).lower_spec(c@) as int,
                    one_ply_bound(old(self).space_view(), old(self).rules().slots as nat, c@, old(self).branches(), old(self).size()) as int,
                )
                &&& final(self).tightened_view() == old(self).tightened_view().insert(c@)
            } else {
                &&& final(self).memo_view() == old(self).memo_view()
                &&& final(self).tightened_view() == old(self).tightened_view()
            },
    {
        proof {
            if c@.no_duplicates() && 1 <= c@.len() && !self.memo_view().contains_key(c@) {
                self.lemma_fresh_lower_sound(c@);
            }
        }
        proof { lemma_fits_below(c@.len()); }
        if c.len() <= 2 || self.is_proven(c) {
            return;
        }
        if self.tightened.contains_key(c) {
            return;
        }
        self.tightened.insert(slice_to_vec(c), ());
        let n = self.space.len();
        let len = c.len();
        let mut size_bounds: Vec<usize> = Vec::new();
        let mut k: usize = 0;
        while k <= len
            invariant
                self.wf(),
                len == c@.len(),
                (len + 1) * (len + 2) <= usize::MAX,
                k <= len + 1,
                size_bounds@.len() == k,
                forall|q: int| 0 <= q < k ==> #[trigger] size_bounds@[q] <= q * q,
                forall|q: int| 0 <= q < k ==> #[trigger] size_bounds@[q] == theoretical_lower_spec(q as nat, self.branches()),
            decreases len + 1 - k,
        {
            assert(k * (k + 1) <= (len + 1) * (len + 2)) by (nonlinear_arith)
                requires
                    k <= len + 1,
            ;
            let t = self.theoretical_lower_bounded(k);
            size_bounds.push(t);
            assert(k + 1 <= (len + 1) * (len + 2)) by (nonlinear_arith)
                requires
                    k <= len,
            ;
            k += 1;
        }
        let slots = self.settings.slots;
        let ghost sp = self.space_view();
        let ghost sl = slots as nat;
        let ghost ok_codes = c@.no_duplicates();
        proof {
            if ok_codes {
                self.lemma_distinct_codes(c@);
            }
            lemma_possible_count(sl);
        }
        let mut best: usize = usize::MAX;
        let mut guess: usize = 0;
        while guess < n
            invariant
                self.wf(),
                n == self.size(),
                slots == self.rules().slots,
                len == c@.len(),
                3 <= len,
                (len + 1) * (len + 2) <= usize::MAX,
                ids_below(c@, n as nat),
                size_bounds@.len() == len + 1,
                forall|q: int| 0 <= q <= len ==> #[trigger] size_bounds@[q] <= q * q,
                forall|q: int| 0 <= q <= len ==> #[trigger] size_bounds@[q] == theoretical_lower_spec(q as nat, self.branches()),
                guess <= n,
                sp == self.space_view(),
                sl == slots as nat,
                sp.len() == n,
                ok_codes == c@.no_duplicates(),
                ok_codes ==> distinct_codes(sp, c@) && shaped(sp, sl, c@),
                self.branches() == possible_count(sl, 25),
                ok_codes ==> forall|x: u16| (x as int) < guess ==> sound_via(sp, sl, c@, x, best as nat),
                best == one_ply_bound(sp, sl, c@, self.branches(), guess as nat),
            decreases n - guess,
        {
            let mut counts: Vec<usize> = Vec::new();
            let mut f: usize = 0;
            while f < 25
                invariant
                    f <= 25,
                    counts@.len() == f,
                    forall|q: int| 0 <= q < f ==> #[trigger] counts@[q] == 0,
                    sum_usize(counts@) == 0,
                decreases 25 - f,
            {
                assert(counts@.push(0).drop_last() =~= counts@);
                counts.push(0);
                f += 1;
            }
            let mut i: usize = 0;
            while i < len
                invariant
                    self.wf(),
                    n == self.size(),
                    len == c@.len(),
                    (len + 1) * (len + 2) <= usize::MAX,
                    ids_below(c@, n as nat),
                    guess < n,
                    i <= len,
                    counts@.len() == 25,
                    sum_usize(counts@) == i,
                    sp == self.space_view(),
                    forall|q: int| 0 <= q < 25 ==> #[trigger] counts@[q] == c@.take(i as int).filter(
                        |v: u16| fb_code(sp, guess as int, v as int) == q,
                    ).len(),
                decreases len - i,
            {
                let id = c[i];
                proof {
                    assert((guess as int) * (n as int) + (id as int) < (n as int) * (n as int)) by (nonlinear_arith)
                        requires
                            (guess as int) < (n as int),
                            (id as int) < (n as int),
                    ;
                    assert((n as int) * (n as int) <= 1296 * 1296) by (nonlinear_arith)
                        requires
                            (n as int) <= 1296,
                            (n as int) >= 0,
                    ;
                    let sp = self.space.deep_view();
                    assert(sp[guess as int] == self.space@[guess as int]@);
                    assert(sp[id as int] == self.space@[id as int]@);
                    lemma_feedback_bounds(sp[guess as int], sp[id as int]);
                }
                let code = self.feedback[guess * n + id as usize] as usize;
                assert(code < 25);
                proof {
                    lemma_sum_bounds_each(counts@, code as int);
                    lemma_sum_update(counts@, code as int, (counts@[code as int] + 1) as usize);
                }
                let ghost before = counts@;
                let v = counts[code] + 1;
                counts.set(code, v);
                proof {
                    assert(c@.take(i + 1) =~= c@.take(i as int).push(id));
                    assert(code == fb_code(sp, guess as int, id as int)) by {
                        assert(self.feedback@[guess * n + id as int] == fb_code(self.space.deep_view(), guess as int, id as int));
                    }
                    assert forall|q: int| 0 <= q < 25 implies #[trigger] counts@[q] == c@.take(i + 1).filter(
                        |v: u16| fb_code(sp, guess as int, v as int) == q,
                    ).len() by {
                        c@.take(i as int).lemma_filter_push(id, |v: u16| fb_code(sp, guess as int, v as int) == q);
                        if q != code {
                            assert(counts@[q] == before[q]);
                        }
                    }
                }
                i += 1;
            }
            proof {
                assert(c@.take(len as int) =~= c@);
            }
            let mut full = false;
            let mut f: usize = 0;
            while f < 25
                invariant
                    f <= 25,
                    counts@.len() == 25,
                    full ==> exists|q: int| 0 <= q < f && #[trigger] counts@[q] == len,
                    !full ==> forall|q: int| 0 <= q < f ==> #[trigger] counts@[q] != len,
                decreases 25 - f,
            {
                if counts[f] == len {
                    full = true;
                }
                f += 1;
            }
            proof {
                assert forall|q: int| 0 <= q < 25 implies #[trigger] counts@[q] == fb_count(sp, c@, guess as int, q) by {}
                if full {
                    let q = choose|q: int| 0 <= q < 25 && #[trigger] counts@[q] == len;
                    assert(fb_count(sp, c@, guess as int, q) == c@.len());
                    assert(blocked_guess(sp, c@, guess as int));
                } else {
                    assert forall|q: int| 0 <= q < 25 implies #[trigger] fb_count(sp, c@, guess as int, q) != c@.len() by {
                        assert(counts@[q] != len);
                    }
                    assert(!blocked_guess(sp, c@, guess as int));
                }
            }
            if full {
                proof {
                    if ok_codes {
                        let q = choose|q: int| 0 <= q < 25 && #[trigger] counts@[q] == len;
                        if q == sl * 5 {
                            lemma_found_at_most_one(sp, sl, c@, guess as int);
                        } else {
                            lemma_no_progress_guess(sp, sl, c@, guess as u16, q);
                        }
                        assert forall|x: u16| (x as int) < guess + 1 implies sound_via(sp, sl, c@, x, best as nat) by {}
                    }
                }
            }
            if !full {
                proof {
                    lemma_sum_bounds_each(counts@, (slots * 5) as int);
                    lemma_sum_update(counts@, (slots * 5) as int, 0);
                }
                let ghost before_zero = counts@;
                counts.set(slots * 5, 0);
                let ghost all = Seq::new(25, |q: int| bucket(sp, sl, c@, guess as int, q));
                proof {
                    assert forall|q: int| 0 <= q < 25 implies #[trigger] counts@[q] == all[q].len() by {
                        if q != sl * 5 {
                            assert(counts@[q] == before_zero[q]);
                        }
                    }
                }
                let mut acc: usize = 0;
                let mut partial: usize = 0;
                let mut f: usize = 0;
                while f < 25
                    invariant
                        f <= 25,
                        counts@.len() == 25,
                        (len + 1) * (len + 2) <= usize::MAX,
                        sum_usize(counts@) <= len,
                        partial == sum_usize(counts@.take(f as int)),
                        partial <= sum_usize(counts@),
                        size_bounds@.len() == len + 1,
                        forall|q: int| 0 <= q <= len ==> #[trigger] size_bounds@[q] <= q * q,
                        acc <= len * partial,
                        forall|q: int| 0 <= q <= len ==> #[trigger] size_bounds@[q] == theoretical_lower_spec(q as nat, self.branches()),
                        forall|q: int| 0 <= q < 25 ==> #[trigger] counts@[q] == all[q].len(),
                        all.len() == 25,
                        self.branches() == possible_count(sl, 25),
                        acc == bounds_sum(lens_of(all.take(f as int)), possible_count(sl, 25)),
                    decreases 25 - f,
                {
                    proof {
                        assert(counts@.take(f + 1).drop_last() =~= counts@.take(f as int));
                        assert(counts@.take(f + 1).last() == counts@[f as int]);
                        lemma_prefix_sum_le(counts@, f + 1);
                    }
                    let k = counts[f];
                    proof {
                        lemma_sum_bounds_each(counts@, f as int);
                        assert(k <= len);
                        assert(size_bounds@[k as int] <= k * k);
                        assert(k * k <= len * k) by (nonlinear_arith)
                            requires
                                k <= len,
                        ;
                        assert(len * partial + len * k == len * (partial + k)) by (nonlinear_arith);
                        assert(len * (partial + k) <= (len + 1) * (len + 2)) by (nonlinear_arith)
                            requires
                                partial + k <= len,
                        ;
                    }
                    proof {
                        assert(lens_of(all.take(f + 1)).drop_last() =~= lens_of(all.take(f as int)));
                        assert(lens_of(all.take(f + 1)).last() == all[f as int].len());
                    }
                    acc = acc + size_bounds[k];
                    partial = partial + k;
                    f += 1;
                }
                proof {
                    assert(len + len * partial <= (len + 1) * (len + 2)) by (nonlinear_arith)
                        requires
                            partial <= len,
                    ;
                }
                let lower = len + acc;
                let ghost best_before = best;
                proof {
                    assert(all.take(25) =~= all);
                    assert(lower == guess_bound(sp, sl, c@, guess as int, self.branches()));
                }
                if lower < best {
                    best = lower;
                }
                proof {
                    if ok_codes {
                        assert(all.take(25) =~= all);
                        lemma_ids_len(c@, n as nat);
                        lemma_guess_bound(sp, sl, c@, guess as u16);
                        assert forall|x: u16| (x as int) < guess + 1 implies sound_via(sp, sl, c@, x, best as nat) by {
                            if (x as int) < guess {
                                lemma_sound_via_weaken(sp, sl, c@, x, best_before as nat, best as nat);
                            } else {
                                lemma_sound_via_weaken(sp, sl, c@, x, lower as nat, best as nat);
                            }
                        }
                    }
                }
            }
            guess += 1;
        }
        proof { lemma_fits_below(c@.len()); }
        let current = self.lower(c);
        let ghost before_entry = *self;
        let lower = if current > best {
            current
        } else {
            best
        };
        let mut entry = match self.memo.get(c) {
            Some(e) => *e,
            None => Entry { lower, upper: None },
        };
        entry.lower = lower;
        self.memo.insert(slice_to_vec(c), entry);
        proof {
            assert forall|k: Seq<u16>| #[trigger] self.memo.view().contains_key(k) implies ids_below(k, self.space@.len())
                && (self.memo.view()[k].upper matches Some(nd) ==> (nd.guess as nat) < self.space@.len() && nd.worst <= k.len() && nd.total < usize::MAX) by {
                if k != c@ {
                    assert(old(self).memo.view().contains_key(k));
                }
            }
            if old(self).strategies_realized() {
                lemma_realized_same_uppers(self.space_view(), self.rules().slots as nat, old(self).memo_view(), self.memo_view());
            }
            if old(self).lowers_sound() && old(self).proper_set(c@) {
                old(self).lemma_lower_sound(c@);
            }
            if ok_codes && sound_lower(sp, sl, c@, old(self).lower_spec(c@)) {
                assert(self.lower_spec(c@) == lower);
                assert forall|g: Map<Seq<u16>, u16>| guesses_in(g, sp.len()) && #[trigger] strategy_tree(sp, sl, g, c@) is Ok
                    implies strategy_tree(sp, sl, g, c@)->Ok_0.total >= lower by {
                    assert(g.contains_key(c@));
                    let x = g[c@];
                    assert(sound_via(sp, sl, c@, x, best as nat));
                    assert(tree_guess(g, c@) == Some(x));
                }
            }
            assert(self.memo_view() == old(self).memo_view().insert(c@, entry));
            if old(self).lowers_sound() {
                self.lemma_lowers_after_insert(old(self), c@, entry);
            }
            assert forall|k: Seq<u16>| old(self).proper_set(k) implies old(self).lower_spec(k) <= #[trigger] self.lower_spec(k) by {}
        }
    }

    /// The counting bound for `n` candidates, with its square bound.
    fn theoretical_lower_bounded(&self, n: usize) -> (cost: usize)
        requires
            self.wf(),
            n * (n + 1) <= usize::MAX,
        ensures
            cost == theoretical_lower_spec(n as nat, self.branches()),
            cost <= n * n,
    {
        proof {
            lemma_tl_square(n as nat, 1, 1, self.branches());
        }
        self.theoretical_lower(n)
    }
}

proof fn lemma_prefix_sum_le(s: Seq<usize>, k: int)
    requires
        0 <= k <= s.len(),
    ensures
        sum_usize(s.take(k)) <= sum_usize(s),
    decreases s.len() - k,
{
    if k < s.len() {
        lemma_prefix_sum_le(s, k + 1);
        assert(s.take(k + 1).drop_last() =~= s.take(k));
    } else {
        assert(s.take(k) =~= s);
    }
}

/// Filling `n` candidates from level `depth` costs at most `n` times the
/// deepest level used, which is below `depth + n`.
proof fn lemma_tl_square(n: nat, capacity: nat, depth: nat, branches: nat)
    requires
        capacity >= 1,
        depth >= 1,
    ensures
        tl_from(n, capacity, depth, branches) <= n * (depth + n - 1),
    decreases n,
{
    if n > 0 {
        let take = if capacity < n {
            capacity
        } else {
            n
        };
        let next = if sat_mul(capacity, branches) >= 1 {
            sat_mul(capacity, branches)
        } else {
            1
        };
        let rest = (n - take) as nat;
        lemma_tl_square(rest, next, depth + 1, branches);
        assert(depth * take + rest * (depth + 1 + rest - 1) <= n * (depth + n - 1)) by (nonlinear_arith)
            requires
                1 <= take <= n,
                rest == n - take,
                depth >= 1,
        ;
    }
}

/// A subproblem of a set of `clen` candidates: non-empty, strictly smaller,
/// and made of ids below `n`.
pub open spec fn child_ok(ch: Seq<u16>, clen: nat, n: nat) -> bool {
    &&& 1 <= ch.len() < clen
    &&& ids_below(ch, n)
}

/// Every bucket of `children_spec` is a non-empty part of `c`.
pub proof fn lemma_children_subset(sp: Seq<Seq<u8>>, slots: nat, c: Seq<u16>, g: int)
    ensures
        children_spec(sp, slots, c, g).len() <= 25,
        forall|x: Seq<u16>| #[trigger] children_spec(sp, slots, c, g).contains(x) ==> x.len() > 0 && x.len()
            <= c.len() && forall|i: int| 0 <= i < x.len() ==> c.contains(#[trigger] x[i]),
{
    let all = Seq::new(25, |f: int| bucket(sp, slots, c, g, f));
    let pred = |b: Seq<u16>| b.len() > 0;
    all.lemma_filter_len(pred);
    assert forall|x: Seq<u16>| #[trigger] children_spec(sp, slots, c, g).contains(x) implies x.len() > 0 && x.len()
        <= c.len() && forall|i: int| 0 <= i < x.len() ==> c.contains(#[trigger] x[i]) by {
        let cs = all.filter(pred);
        let k = choose|k: int| 0 <= k < cs.len() && cs[k] == x;
        all.lemma_filter_pred(pred, k);
        all.lemma_filter_contains_rev(pred, x);
        let f = choose|f: int| 0 <= f < all.len() && all[f] == x;
        if f != slots * 5 {
            let p2 = |id: u16| fb_code(sp, g, id as int) == f;
            c.lemma_filter_len(p2);
            assert forall|i: int| 0 <= i < x.len() implies c.contains(#[trigger] x[i]) by {
                assert(c.filter(p2).contains(x[i]));
                c.lemma_filter_contains_rev(p2, x[i]);
            }
        }
    }
}

/// Length-prefixed concatenation of a list of candidate sets.
fn flatten(children: &Vec<Vec<u16>>) -> (flat: Vec<u16>)
    ensures
        flat@ == flat_spec(children.deep_view()),
{
    let mut flat: Vec<u16> = Vec::new();
    let mut i: usize = 0;
    while i < children.len()
        invariant
            i <= children@.len(),
            flat@ == flat_spec(children.deep_view().take(i as int)),
        decreases children@.len() - i,
    {
        let ch = &children[i];
        let ghost before = flat@;
        flat.push(if ch.len() > 65535 {
            65535
        } else {
            ch.len() as u16
        });
        let mut j: usize = 0;
        while j < ch.len()
            invariant
                j <= ch@.len(),
                flat@ == before + seq![size_tag(ch@.len())] + ch@.take(j as int),
            decreases ch@.len() - j,
        {
            assert(ch@.take(j + 1) =~= ch@.take(j as int).push(ch@[j as int]));
            flat.push(ch[j]);
            j += 1;
        }
        proof {
            assert(ch@.take(ch@.len() as int) =~= ch@);
            assert(children.deep_view()[i as int] == ch@);
            assert(children.deep_view().take(i + 1) =~= children.deep_view().take(i as int).push(ch@));
            lemma_flat_push(children.deep_view().take(i as int), ch@);
        }
        i += 1;
    }
    assert(children.deep_view().take(children@.len() as int) =~= children.deep_view());
    flat
}

/// The size of a candidate set as one id, capped at the largest.
pub open spec fn size_tag(n: nat) -> u16 {
    if n > 65535 {
        65535
    } else {
        n as u16
    }
}

/// Each candidate set after its size, in order.
pub open spec fn flat_spec(chs: Seq<Seq<u16>>) -> Seq<u16>
    decreases chs.len(),
{
    if chs.len() == 0 {
        Seq::empty()
    } else {
        seq![size_tag(chs[0].len())] + chs[0] + flat_spec(chs.drop_first())
    }
}

proof fn lemma_flat_push(chs: Seq<Seq<u16>>, x: Seq<u16>)
    ensures
        flat_spec(chs.push(x)) == flat_spec(chs) + seq![size_tag(x.len())] + x,
    decreases chs.len(),
{
    if chs.len() == 0 {
        assert(chs.push(x).drop_first() =~= Seq::<Seq<u16>>::empty());
        assert(chs.push(x)[0] == x);
        assert(flat_spec(Seq::<Seq<u16>>::empty()) == Seq::<u16>::empty());
        assert(flat_spec(chs) == Seq::<u16>::empty());
        assert(flat_spec(chs.push(x)) =~= seq![size_tag(x.len())] + x);
    } else {
        assert(chs.push(x).drop_first() =~= chs.drop_first().push(x));
        lemma_flat_push(chs.drop_first(), x);
        assert(flat_spec(chs.push(x)) =~= flat_spec(chs) + seq![size_tag(x.len())] + x);
    }
}

/// Lists of sets smaller than the cap with the same flattening are equal.
proof fn lemma_flat_injective(a: Seq<Seq<u16>>, b: Seq<Seq<u16>>)
    requires
        flat_spec(a) == flat_spec(b),
        forall|i: int| 0 <= i < a.len() ==> (#[trigger] a[i]).len() < 65535,
        forall|i: int| 0 <= i < b.len() ==> (#[trigger] b[i]).len() < 65535,
    ensures
        a == b,
    decreases a.len(),
{
    if a.len() == 0 {
        if b.len() > 0 {
            assert(flat_spec(b).len() > 0);
        }
        assert(a =~= b);
    } else {
        assert(b.len() > 0) by {
            assert(flat_spec(a).len() > 0);
        }
        let fa = flat_spec(a);
        let fb = flat_spec(b);
        let la = a[0].len();
        let lb = b[0].len();
        assert(fa[0] == size_tag(la) && fb[0] == size_tag(lb));
        assert(la == lb);
        assert(a[0] =~= fa.subrange(1, 1 + la as int));
        assert(b[0] =~= fb.subrange(1, 1 + lb as int));
        assert(flat_spec(a.drop_first()) =~= fa.subrange(1 + la as int, fa.len() as int));
        assert(flat_spec(b.drop_first()) =~= fb.subrange(1 + lb as int, fb.len() as int));
        lemma_flat_injective(a.drop_first(), b.drop_first());
        assert(a =~= seq![a[0]] + a.drop_first());
        assert(b =~= seq![b[0]] + b.drop_first());
    }
}

/// Order of candidate sets: key order, or decreasing size when `by_len`.
spec fn set_before(by_len: bool, a: Seq<u16>, b: Seq<u16>) -> bool {
    if by_len {
        b.len() < a.len()
    } else {
        lex_lt(a, b)
    }
}

/// Reorders candidate sets: by key order when `by_len` is false, else by
/// decreasing size.
fn sort_sets(v: Vec<Vec<u16>>, by_len: bool) -> (out: Vec<Vec<u16>>)
    ensures
        out@.len() == v@.len(),
        forall|i: int| 0 <= i < out@.len() ==> v@.contains(#[trigger] out@[i]),
        out.deep_view().to_multiset() == v.deep_view().to_multiset(),
        forall|i: int, j: int|
            #![trigger out@[i], out@[j]]
            0 <= i < j < out@.len() ==> !set_before(by_len, out@[j]@, out@[i]@),
{
    broadcast use vstd::seq_lib::group_to_multiset_ensures;

    let ghost v0 = v@;
    let ghost v0d = v.deep_view();
    let mut v = v;
    let mut out: Vec<Vec<u16>> = Vec::new();
    assert(out.deep_view().to_multiset() =~= vstd::multiset::Multiset::empty());
    while v.len() > 0
        invariant
            v@ == v0.take(v@.len() as int),
            out@.len() + v@.len() == v0.len(),
            forall|i: int| 0 <= i < out@.len() ==> v0.contains(#[trigger] out@[i]),
            out.deep_view().to_multiset().add(v.deep_view().to_multiset()) == v0d.to_multiset(),
            forall|i: int, j: int|
                #![trigger out@[i], out@[j]]
                0 <= i < j < out@.len() ==> !set_before(by_len, out@[j]@, out@[i]@),
        decreases v@.len(),
    {
        let ghost k = v@.len();
        let ghost vd = v.deep_view();
        let ghost ov = v@;
        let x = v.pop().unwrap();
        assert(v0[k - 1] == x);
        assert(v@ =~= v0.take(k - 1));
        proof {
            assert(x.deep_view() =~= x@);
            assert forall|i: int| 0 <= i < vd.len() implies #[trigger] vd[i] == v.deep_view().push(x@)[i] by {
                assert(vd[i] == ov[i].deep_view());
                if i < v@.len() {
                    assert(v@[i] == ov[i]);
                }
            }
            assert(vd =~= v.deep_view().push(x@));
            v.deep_view().to_multiset_ensures();
        }
        let mut pos: usize = 0;
        while pos < out.len()
            invariant
                pos <= out@.len(),
                forall|q: int| 0 <= q < pos ==> !set_before(by_len, x@, #[trigger] out@[q]@),
            ensures
                pos <= out@.len(),
                forall|q: int| 0 <= q < pos ==> !set_before(by_len, x@, #[trigger] out@[q]@),
                pos < out@.len() ==> set_before(by_len, x@, out@[pos as int]@),
            decreases out@.len() - pos,
        {
            let before = if by_len {
                out[pos].len() < x.len()
            } else {
                crate::keymap::compare_keys(x.as_slice(), out[pos].as_slice()) == crate::keymap::KeyOrder::Less
            };
            if before {
                break;
            }
            pos += 1;
        }
        let ghost prev = out@;
        let ghost prevd = out.deep_view();
        out.insert(pos, x);
        proof {
            assert forall|i: int, j: int| 0 <= i < j < out@.len() implies !set_before(by_len, #[trigger] out@[j]@, #[trigger] out@[i]@) by {
                if j < pos {
                    assert(out@[i] == prev[i] && out@[j] == prev[j]);
                } else if j == pos {
                    assert(out@[i] == prev[i]);
                } else if i > pos {
                    assert(out@[i] == prev[i - 1] && out@[j] == prev[j - 1]);
                } else if i == pos {
                    let p = prev[pos as int]@;
                    let q = prev[j - 1]@;
                    assert(out@[j] == prev[j - 1]);
                    assert(set_before(by_len, x@, p));
                    if j - 1 > pos {
                        assert(!set_before(by_len, q, p));
                    }
                    if !by_len && lex_lt(q, x@) {
                        lemma_lex_transitive(q, x@, p);
                        lemma_lex_irreflexive(p);
                    }
                } else {
                    assert(out@[i] == prev[i] && out@[j] == prev[j - 1]);
                }
            }
            let nd = out.deep_view();
            assert(nd.remove(pos as int) =~= prevd);
            assert(nd[pos as int] == x@);
            assert(nd.contains(x@));
            nd.to_multiset_ensures();
            assert(nd.to_multiset().count(x@) > 0);
            assert(nd.to_multiset() =~= prevd.to_multiset().insert(x@));
            assert forall|i: int| 0 <= i < out@.len() implies v0.contains(#[trigger] out@[i]) by {
                if i < pos {
                    assert(out@[i] == prev[i]);
                } else if i == pos {
                    assert(v0[k - 1] == out@[i]);
                } else {
                    assert(out@[i] == prev[i - 1]);
                }
            }
        }
    }
    out
}

/// A guess that survived ranking: lower bound, tie breaker, whether it is a
/// candidate itself, the guess, and its subproblems.
type Ranked = (usize, usize, bool, u16, Vec<Vec<u16>>);

/// The subproblems of a ranked guess are the buckets of its guess, in some order.
spec fn buckets_of_ranked(sp: Seq<Seq<u8>>, slots: nat, c: Seq<u16>, r: Ranked) -> bool {
    r.4.deep_view().to_multiset() == children_spec(sp, slots, c, r.3 as int).to_multiset()
}

/// Guess `x` has the same buckets as a ranked guess.
spec fn twin_ranked(sp: Seq<Seq<u8>>, slots: nat, c: Seq<u16>, x: u16, rs: Seq<Ranked>) -> bool {
    exists|i: int| 0 <= i < rs.len() && #[trigger] buckets_same(sp, slots, c, x, rs[i].3)
}

/// Exploration order of ranked guesses: lexicographic on the bound, the tie
/// breaker, candidates before non-candidates, and the guess.
spec fn ranked_lt(a: Ranked, b: Ranked) -> bool {
    ||| a.0 < b.0
    ||| a.0 == b.0 && a.1 < b.1
    ||| a.0 == b.0 && a.1 == b.1 && a.2 && !b.2
    ||| a.0 == b.0 && a.1 == b.1 && a.2 == b.2 && a.3 < b.3
}

/// `a` is explored before `b`: smaller bound, then smaller tie breaker, then
/// candidates first, then smaller guess.
fn ranked_before(a: &Ranked, b: &Ranked) -> (r: bool)
    ensures
        r == ranked_lt(*a, *b),
{
    if a.0 != b.0 {
        return a.0 < b.0;
    }
    if a.1 != b.1 {
        return a.1 < b.1;
    }
    if a.2 != b.2 {
        return a.2;
    }
    a.3 < b.3
}

/// Sorts ranked guesses into exploration order.
fn sort_ranked(v: Vec<Ranked>) -> (out: Vec<Ranked>)
    ensures
        out@.len() == v@.len(),
        forall|i: int| 0 <= i < out@.len() ==> v@.contains(#[trigger] out@[i]),
        out@.to_multiset() == v@.to_multiset(),
        forall|i: int, j: int| 0 <= i < j < out@.len() ==> !ranked_lt(#[trigger] out@[j], #[trigger] out@[i]),
{
    broadcast use vstd::seq_lib::group_to_multiset_ensures;

    let ghost v0 = v@;
    let mut v = v;
    let mut out: Vec<Ranked> = Vec::new();
    while v.len() > 0
        invariant
            v@ == v0.take(v@.len() as int),
            out@.len() + v@.len() == v0.len(),
            forall|i: int| 0 <= i < out@.len() ==> v0.contains(#[trigger] out@[i]),
            out@.to_multiset().add(v@.to_multiset()) == v0.to_multiset(),
            forall|i: int, j: int| 0 <= i < j < out@.len() ==> !ranked_lt(#[trigger] out@[j], #[trigger] out@[i]),
        decreases v@.len(),
    {
        let ghost k = v@.len();
        let ghost ov = v@;
        let x = v.pop().unwrap();
        assert(v0[k - 1] == x);
        assert(v@ =~= v0.take(k - 1));
        proof {
            assert(ov =~= v@.push(x));
            v@.to_multiset_ensures();
        }
        let mut pos: usize = 0;
        while pos < out.len()
            invariant
                pos <= out@.len(),
                forall|q: int| 0 <= q < pos ==> !ranked_lt(x, #[trigger] out@[q]),
            ensures
                pos <= out@.len(),
                forall|q: int| 0 <= q < pos ==> !ranked_lt(x, #[trigger] out@[q]),
                pos < out@.len() ==> ranked_lt(x, out@[pos as int]),
            decreases out@.len() - pos,
        {
            if ranked_before(&x, &out[pos]) {
                break;
            }
            pos += 1;
        }
        let ghost prev = out@;
        out.insert(pos, x);
        proof {
            assert forall|i: int, j: int| 0 <= i < j < out@.len() implies !ranked_lt(#[trigger] out@[j], #[trigger] out@[i]) by {
                if j < pos {
                    assert(out@[i] == prev[i] && out@[j] == prev[j]);
                } else if j == pos {
                    assert(out@[i] == prev[i]);
                } else if i > pos {
                    assert(out@[i] == prev[i - 1] && out@[j] == prev[j - 1]);
                } else if i == pos {
                    assert(out@[j] == prev[j - 1]);
                    assert(ranked_lt(x, prev[pos as int]));
                    if j - 1 > pos {
                        assert(!ranked_lt(prev[j - 1], prev[pos as int]));
                    }
                } else {
                    assert(out@[i] == prev[i] && out@[j] == prev[j - 1]);
                }
            }
            assert(out@.remove(pos as int) =~= prev);
            assert(out@[pos as int] == x);
            assert(out@.contains(x));
            out@.to_multiset_ensures();
            assert(out@.to_multiset().count(x) > 0);
            assert(out@.to_multiset() =~= prev.to_multiset().insert(x));
            assert forall|i: int| 0 <= i < out@.len() implies v0.contains(#[trigger] out@[i]) by {
                if i < pos {
                    assert(out@[i] == prev[i]);
                } else if i == pos {
                    assert(v0[k - 1] == out@[i]);
                } else {
                    assert(out@[i] == prev[i - 1]);
                }
            }
        }
    }
    assert(v@.to_multiset() =~= vstd::multiset::Multiset::empty());
    out
}

fn sat_add(a: usize, b: usize) -> (r: usize)
    ensures
        r == if a + b > usize::MAX {
            usize::MAX as int
        } else {
            a + b
        },
{
    if a > usize::MAX - b {
        usize::MAX
    } else {
        a + b
    }
}

fn contains_id(c: &[u16], x: u16) -> (b: bool)
    ensures
        b == c@.contains(x),
{
    let mut i: usize = 0;
    while i < c.len()
        invariant
            i <= c@.len(),
            forall|q: int| 0 <= q < i ==> c@[q] != x,
        decreases c@.len() - i,
    {
        if c[i] == x {
            assert(c@[i as int] == x);
            return true;
        }
        i += 1;
    }
    false
}

impl Optimizer {
    /// Branch and bound for the smallest total number of submissions over
    /// the candidates `c`, exploring only strategies cheaper than `limit`.
    /// A strategy found is memoized and returned when it is below `limit`.
    /// On interruption, bounds and strategies memoized so far are kept.
    ///
    /// For a set of different candidates (short of the whole space, or the
    /// whole space in id order, where one first guess per signature stands
    /// for all), with sound memoized lower bounds, the answer is exact:
    /// `None` shows that
    /// every strategy costs at least `limit`, and a node returned costs no
    /// more than any strategy and is realized by one.
    #[verifier::rlimit(100)]
    #[verifier::spinoff_prover]
    pub fn solve(&mut self, c: &[u16], limit: usize) -> (r: Result<Option<Node>, Interrupted>)
        requires
            old(self).wf(),
            1 <= c@.len() <= old(self).size(),
            ids_below(c@, old(self).size()),
        ensures
            final(self).wf(),
            final(self).same_rules(old(self)),
            keeps_strategies(old(self).memo_view(), final(self).memo_view()),
            r matches Ok(Some(node)) ==> node.total < limit && final(self).upper_spec(c@) == Some(node)
                && (node.guess as nat) < old(self).size() && node.worst <= c@.len() && node.total < usize::MAX,
            r matches Ok(None) ==> old(self).lower_spec(c@) >= limit || final(self).upper_spec(c@) is None
                || final(self).upper_spec(c@)->0.total >= limit,
            r matches Ok(Some(node)) ==> final(self).lower_spec(c@) >= node.total,
            r matches Ok(None) ==> final(self).lower_spec(c@) >= limit,
            old(self).states_in_order() && increasing(c@) ==> final(self).states_in_order(),
            (old(self).upper_spec(c@) matches Some(u) && old(self).lower_spec(c@) == u.total && u.total < limit && c@.len() > 2)
                ==> (r matches Ok(x) ==> x == old(self).upper_spec(c@)),
            c@.len() <= 2 && old(self).lower_spec(c@) < limit ==> (r matches Ok(x) ==> x == (if 2 * c@.len() - 1 < limit {
                Some(Node { guess: c@[0], total: (2 * c@.len() - 1) as usize, worst: c@.len() as usize })
            } else {
                None
            })),
            old(self).lowers_sound() && old(self).strategies_realized() && old(self).proper_set(c@) ==> (r matches Ok(Some(node))
                ==> final(self).lower_spec(c@) == node.total),
            final(self).rules() == old(self).rules(),
            final(self).space_view() == old(self).space_view(),
            final(self).size() == old(self).size(),
            r is Err ==> old(self).has_deadline(),
            old(self).strategies_realized() ==> final(self).strategies_realized(),
            old(self).strategies_realized() ==> (r matches Ok(Some(node)) ==> realizes(
                old(self).space_view(),
                old(self).rules().slots as nat,
                c@,
                node,
            )),
            same_above(old(self).memo_view(), final(self).memo_view(), c@.len()),
            old(self).lowers_sound() ==> final(self).lowers_sound() && final(self).lowers_grow(old(self)),
            old(self).lowers_sound() && old(self).proper_set(c@) ==> (r matches Ok(None) ==> sound_lower(
                old(self).space_view(),
                old(self).rules().slots as nat,
                c@,
                limit as nat,
            )),
            old(self).lowers_sound() && old(self).proper_set(c@) ==> (r matches Ok(Some(node)) ==> sound_lower(
                old(self).space_view(),
                old(self).rules().slots as nat,
                c@,
                node.total as nat,
            )),
            old(self).lowers_sound() && old(self).strategies_realized() && old(self).proper_set(c@) ==> (r matches Ok(x)
                ==> search_answer(old(self).space_view(), old(self).rules().slots as nat, c@, limit as nat, x)),
        decreases c@.len(),
    {
        let ghost n0 = self.size();
        let ghost realized0 = self.strategies_realized();
        let ghost sound0 = self.lowers_sound();
        let ghost tgt = sound0 && self.proper_set(c@);
        let ghost inc = self.states_in_order() && increasing(c@);
        let ghost sl = self.rules().slots as nat;
        self.tick()?;
        let len = c.len();
        let n = self.space.len();
        proof {
            if tgt {
                self.lemma_lower_sound(c@);
            }
        }
        proof { lemma_count_fits(c@.len()); }
        if self.lower(c) >= limit {
            proof {
                if tgt {
                    lemma_sound_lower_weaken(self.space_view(), sl, c@, self.lower_spec(c@), limit as nat);
                }
            }
            return Ok(None);
        }
        if len <= 2 {
            let node = Node { guess: c[0], total: len * 2 - 1, worst: len };
            assert((c@[0] as nat) < n0);
            let ghost before = *self;
            self.memo.insert(slice_to_vec(c), Entry { lower: node.total, upper: Some(node) });
            proof {
                if inc {
                    assert forall|k: Seq<u16>| #[trigger] self.memo_view().contains_key(k) implies increasing(k) by {
                        if k != c@ {
                            assert(before.memo_view().contains_key(k));
                        }
                    }
                }
                let e = Entry { lower: node.total, upper: Some(node) };
                let sp0 = self.space_view();
                assert forall|i: int| 0 <= i < c@.len() implies fb_code(sp0, #[trigger] c@[i] as int, c@[i] as int) == sl * 5 by {
                    let j = c@[i] as int;
                    assert(sp0[j] == self.space@[j]@);
                    lemma_feedback_self(sp0[j]);
                }
                let w = lemma_small_realizes(sp0, sl, c@);
                if before.proper_set(c@) {
                    before.lemma_distinct_codes(c@);
                    lemma_possible_count(sl);
                    lemma_tl_small(before.branches());
                    assert forall|g: Map<Seq<u16>, u16>| guesses_in(g, sp0.len()) && #[trigger] strategy_tree(sp0, sl, g, c@) is Ok
                        implies strategy_tree(sp0, sl, g, c@)->Ok_0.total >= node.total by {
                        before.lemma_counting_bound(g, c@);
                    }
                    if sound0 {
                        before.lemma_lower_sound(c@);
                        assert(guesses_in(w, sp0.len()));
                        assert(strategy_tree(sp0, sl, w, c@) is Ok);
                    }
                }
                if sound0 {
                    self.lemma_lowers_after_insert(&before, c@, e);
                    self.lemma_grow_insert(&before, c@, e);
                }
                if tgt && node.total >= limit {
                    lemma_sound_lower_weaken(sp0, sl, c@, node.total as nat, limit as nat);
                }
                assert(before.branches() >= 1) by {
                    assert((sl + 1) * (sl + 2) >= 6) by (nonlinear_arith)
                        requires
                            sl >= 1,
                    ;
                }
                lemma_tl_small(before.branches());
                self.lemma_insert_keeps(old(self), c@);
                if realized0 {
                    let sp = self.space_view();
                    let slots = self.rules().slots as nat;
                    assert forall|i: int| 0 <= i < c@.len() implies fb_code(sp, #[trigger] c@[i] as int, c@[i] as int)
                        == slots * 5 by {
                        let j = c@[i] as int;
                        assert(sp[j] == self.space@[j]@);
                        lemma_feedback_self(sp[j]);
                    }
                    lemma_small_realizes(sp, slots, c@);
                    lemma_realized_insert(sp, slots, before.memo_view(), c@, Entry { lower: node.total, upper: Some(node) });
                }
            }
            if node.total < limit {
                return Ok(Some(node));
            } else {
                return Ok(None);
            }
        }
        let prior = match self.memo.get(c) {
            Some(e) => e.upper,
            None => None,
        };
        match prior {
            Some(node) => {
                proof { lemma_count_fits(c@.len()); }
                if self.lower(c) == node.total {
                    return Ok(Some(node));
                }
            },
            None => {},
        }
        let ghost best0 = match prior {
            Some(node) => if node.total < limit {
                node.total
            } else {
                limit
            },
            None => limit,
        };
        let mut best = match prior {
            Some(node) => if node.total < limit {
                node.total
            } else {
                limit
            },
            None => limit,
        };
        let guesses: Vec<u16> = if len == n {
            self.root_guesses.clone()
        } else {
            self.root()
        };
        assert forall|i: int| 0 <= i < guesses@.len() implies (#[trigger] guesses@[i] as nat) < n0 by {
            if len == n {
                assert(guesses@[i] == self.root_guesses@[i]);
            }
        }
        let slots = self.settings.slots;
        let ghost sp = self.space.deep_view();
        let ghost lows0 = Map::new(|y: Seq<u16>| true, |y: Seq<u16>| self.lower_spec(y));
        let mut ranked: Vec<Ranked> = Vec::new();
        let mut signatures: KeyMap<()> = KeyMap::new();
        let mut gi: usize = 0;
        proof {
            if tgt {
                if len < n0 {
                    assert(guesses@ == Seq::new(n0, |i: int| i as u16));
                } else {
                    assert(guesses@ == self.root_guess_view());
                }
            }
        }
        while gi < guesses.len()
            invariant
                self.wf(),
                self.same_rules(old(self)),
                self.memo_view() == old(self).memo_view(),
                n0 == self.size(),
                n == n0,
                len == c@.len(),
                3 <= len <= n0,
                n0 <= 1296,
                slots == self.rules().slots,
                sp == self.space_view(),
                ids_below(c@, n0),
                forall|i: int| 0 <= i < guesses@.len() ==> (#[trigger] guesses@[i] as nat) < n0,
                gi <= guesses@.len(),
                signatures.wf(),
                forall|i: int| 0 <= i < ranked@.len() ==> (#[trigger] ranked@[i]).3 < n0 && forall|j: int|
                    0 <= j < ranked@[i].4@.len() ==> child_ok(#[trigger] ranked@[i].4@[j]@, len as nat, n0),
                forall|i: int| 0 <= i < ranked@.len() ==> buckets_of_ranked(sp, slots as nat, c@, #[trigger] ranked@[i]),
                sound0 == old(self).lowers_sound(),
                tgt == (sound0 && old(self).proper_set(c@)),
                sl == slots as nat,
                best == best0,
                best0 <= limit,
                forall|y: Seq<u16>| #[trigger] lows0[y] == self.lower_spec(y),
                tgt && len < n0 ==> guesses@ == Seq::new(n0, |i: int| i as u16),
                tgt && len == n0 ==> guesses@ == self.root_guess_view(),
                tgt ==> forall|i: int| 0 <= i < ranked@.len() ==> sound_via(sp, sl, c@, (#[trigger] ranked@[i]).3, ranked@[i].0 as nat),
                tgt ==> forall|i: int| 0 <= i < gi ==> sound_via(sp, sl, c@, #[trigger] guesses@[i], best as nat) || twin_ranked(sp, sl, c@, guesses@[i], ranked@),
                len <= 32 ==> forall|key: Seq<u16>| #[trigger] signatures.view().contains_key(key) ==> exists|i: int|
                    0 <= i < ranked@.len() && key == flat_spec((#[trigger] ranked@[i]).4.deep_view()),
            decreases guesses@.len() - gi,
        {
            let guess = guesses[gi];
            let ghost prev_ranked_all = ranked@;
            let mut children = self.children(c, guess);
            let ghost cs = children_spec(sp, slots as nat, c@, guess as int);
            proof {
                lemma_children_subset(sp, slots as nat, c@, guess as int);
            }
            let mut progress = true;
            let mut lower: usize = len;
            let mut tie: usize = 0;
            let mut k: usize = 0;
            while k < children.len()
                invariant
                    self.wf(),
                    n0 == self.size(),
                    len == c@.len(),
                    len <= 1296,
                    ids_below(c@, n0),
                    k <= children@.len(),
                    children@.len() <= 25,
                    forall|x: Seq<u16>| #[trigger] children.deep_view().contains(x) ==> x.len() > 0 && x.len()
                        <= c@.len() && forall|i: int| 0 <= i < x.len() ==> c@.contains(#[trigger] x[i]),
                    progress ==> forall|j: int| 0 <= j < k ==> (#[trigger] children@[j])@.len() < len,
                    tie <= k * len * len,
                    cs == children.deep_view(),
                    forall|y: Seq<u16>| #[trigger] lows0[y] == self.lower_spec(y),
                    lower <= len + sum_to(cs, k as int, lows0),
                    !progress ==> exists|j: int| 0 <= j < k && (#[trigger] cs[j]).len() >= len,
                decreases children@.len() - k,
            {
                let ch = &children[k];
                assert(children.deep_view()[k as int] == ch@);
                assert(children.deep_view().contains(ch@));
                if ch.len() == len {
                    progress = false;
                }
                proof {
                    assert forall|i: int| 0 <= i < ch@.len() implies (#[trigger] ch@[i] as nat) < n0 by {
                        let q = choose|q: int| 0 <= q < c@.len() && c@[q] == ch@[i];
                    }
                }
                proof { lemma_count_fits(ch@.len()); }
                let lc = self.lower(ch.as_slice());
                lower = sat_add(lower, lc);
                proof {
                    assert(ch@.len() * ch@.len() <= len * len) by (nonlinear_arith)
                        requires
                            ch@.len() <= len,
                    ;
                    assert(k * len * len + len * len == (k + 1) * len * len) by (nonlinear_arith);
                    assert((k + 1) * len * len <= 25 * 1296 * 1296) by (nonlinear_arith)
                        requires
                            k + 1 <= 25,
                            len <= 1296,
                    ;
                }
                tie = tie + ch.len() * ch.len();
                proof {
                    assert(cs[k as int] == ch@);
                    assert(lows0[ch@] == lc);
                }
                k += 1;
            }
            proof {
                if tgt {
                    if !progress {
                        let j = choose|j: int| 0 <= j < cs.len() && (#[trigger] cs[j]).len() >= len;
                        lemma_blocked_child(sp, sl, c@, guess, j);
                    } else {
                        assert forall|y: Seq<u16>| #[trigger] cs.contains(y) implies sound_lower(sp, sl, y, lows0[y]) by {
                            let j = choose|j: int| 0 <= j < cs.len() && cs[j] == y;
                            assert(children@[j]@ == cs[j]);
                            self.lemma_child_proper(c@, guess, y);
                            self.lemma_lower_sound(y);
                        }
                        lemma_via_sum(sp, sl, c@, guess, cs, lows0, lower as nat);
                    }
                }
            }
            if progress && lower < best {
                proof {
                    assert forall|j: int| 0 <= j < children@.len() implies child_ok(#[trigger] children@[j]@, len as nat, n0) by {
                        let x = children@[j]@;
                        assert(children.deep_view()[j] == x);
                        assert(children.deep_view().contains(x));
                        assert forall|i: int| 0 <= i < x.len() implies (#[trigger] x[i] as nat) < n0 by {
                            assert(c@.contains(x[i]));
                            let q = choose|q: int| 0 <= q < c@.len() && c@[q] == x[i];
                            assert((c@[q] as nat) < n0);
                        }
                    }
                }
                let ghost unsorted = children@;
                let ghost prev_ranked = ranked@;
                let ghost prev_sigs = signatures.view();
                let ghost mut sig_view: Seq<u16> = Seq::empty();
                let mut keep = true;
                if len <= 32 {
                    children = sort_sets(children, false);
                    let sig = flatten(&children);
                    proof {
                        sig_view = sig@;
                    }
                    if signatures.contains_key(sig.as_slice()) {
                        keep = false;
                        proof {
                            if tgt {
                                let i = choose|i: int| 0 <= i < ranked@.len() && sig@ == flat_spec((#[trigger] ranked@[i]).4.deep_view());
                                let r = ranked@[i];
                                assert forall|q: int| 0 <= q < children.deep_view().len() implies (#[trigger] children.deep_view()[q]).len() < 65535 by {
                                    let x = children@[q];
                                    assert(unsorted.contains(x));
                                    let q2 = choose|q2: int| 0 <= q2 < unsorted.len() && unsorted[q2] == x;
                                    assert(child_ok(unsorted[q2]@, len as nat, n0));
                                    assert(children.deep_view()[q] == x@);
                                }
                                assert forall|q: int| 0 <= q < r.4.deep_view().len() implies (#[trigger] r.4.deep_view()[q]).len() < 65535 by {
                                    assert(child_ok(r.4@[q]@, len as nat, n0));
                                    assert(r.4.deep_view()[q] == r.4@[q]@);
                                }
                                lemma_flat_injective(children.deep_view(), r.4.deep_view());
                                assert(buckets_of_ranked(sp, slots as nat, c@, r));
                                assert(buckets_same(sp, sl, c@, guess, ranked@[i].3));
                                assert(twin_ranked(sp, sl, c@, guess, ranked@));
                            }
                        }
                    } else {
                        signatures.insert(sig, ());
                    }
                }
                if keep {
                    let in_c = contains_id(c, guess);
                    proof {
                        assert forall|j: int| 0 <= j < children@.len() implies child_ok(#[trigger] children@[j]@, len as nat, n0) by {
                            let x = children@[j];
                            assert(unsorted.contains(x));
                            let q = choose|q: int| 0 <= q < unsorted.len() && unsorted[q] == x;
                            assert(child_ok(unsorted[q]@, len as nat, n0));
                        }
                    }
                    let ghost prev = ranked@;
                    assert(children.deep_view().to_multiset() == cs.to_multiset());
                    let ghost new_dv = children.deep_view();
                    ranked.push((lower, tie, !in_c, guess, children));
                    proof {
                        assert forall|i: int| 0 <= i < ranked@.len() implies (#[trigger] ranked@[i]).3 < n0 && forall|j: int|
                            0 <= j < ranked@[i].4@.len() ==> child_ok(#[trigger] ranked@[i].4@[j]@, len as nat, n0) by {
                            if i < prev.len() {
                                assert(ranked@[i] == prev[i]);
                            }
                        }
                        assert forall|i: int| 0 <= i < ranked@.len() implies buckets_of_ranked(sp, slots as nat, c@, #[trigger] ranked@[i]) by {
                            if i < prev.len() {
                                assert(ranked@[i] == prev[i]);
                            }
                        }
                        let p = prev.len() as int;
                        assert(ranked@[p].4.deep_view() == new_dv);
                        if tgt {
                            assert forall|i: int| 0 <= i < ranked@.len() implies sound_via(sp, sl, c@, (#[trigger] ranked@[i]).3, ranked@[i].0 as nat) by {
                                if i < prev.len() {
                                    assert(ranked@[i] == prev[i]);
                                }
                            }
                            assert(buckets_same(sp, sl, c@, guess, ranked@[p].3));
                            assert(twin_ranked(sp, sl, c@, guess, ranked@));
                        }
                        if len <= 32 {
                            assert forall|key: Seq<u16>| #[trigger] signatures.view().contains_key(key) implies exists|i: int|
                                0 <= i < ranked@.len() && key == flat_spec((#[trigger] ranked@[i]).4.deep_view()) by {
                                if key == sig_view {
                                    assert(key == flat_spec(ranked@[p].4.deep_view()));
                                } else {
                                    assert(prev_sigs.contains_key(key));
                                    let i = choose|i: int| 0 <= i < prev.len() && key == flat_spec((#[trigger] prev[i]).4.deep_view());
                                    assert(ranked@[i] == prev[i]);
                                }
                            }
                        }
                    }
                }
            }
            proof {
                if tgt {
                    assert forall|q: int| 0 <= q < gi + 1 implies sound_via(sp, sl, c@, #[trigger] guesses@[q], best as nat) || twin_ranked(
                        sp,
                        sl,
                        c@,
                        guesses@[q],
                        ranked@,
                    ) by {
                        let x = guesses@[q];
                        if q < gi {
                            if !sound_via(sp, sl, c@, x, best as nat) {
                                assert(twin_ranked(sp, sl, c@, x, prev_ranked_all));
                                let i = choose|i: int| 0 <= i < prev_ranked_all.len() && #[trigger] buckets_same(sp, sl, c@, x, prev_ranked_all[i].3);
                                assert(ranked@[i] == prev_ranked_all[i]);
                                assert(buckets_same(sp, sl, c@, x, ranked@[i].3));
                            }
                        } else {
                            assert(x == guess);
                            if !(progress && lower < best) {
                                if progress {
                                    lemma_sound_via_weaken(sp, sl, c@, guess, lower as nat, best as nat);
                                }
                            }
                        }
                    }
                }
            }
            gi += 1;
        }
        let ghost unsorted_ranked = ranked@;
        let ranked = sort_ranked(ranked);
        assert forall|i: int| 0 <= i < ranked@.len() implies (#[trigger] ranked@[i]).3 < n0 && forall|j: int|
            0 <= j < ranked@[i].4@.len() ==> child_ok(#[trigger] ranked@[i].4@[j]@, len as nat, n0) by {
            let x = ranked@[i];
        }
        assert forall|i: int| 0 <= i < ranked@.len() implies buckets_of_ranked(sp, slots as nat, c@, #[trigger] ranked@[i]) by {
            let x = ranked@[i];
        }
        proof {
            if tgt {
                assert forall|i: int| 0 <= i < ranked@.len() implies sound_via(sp, sl, c@, (#[trigger] ranked@[i]).3, ranked@[i].0 as nat) by {
                    let x = ranked@[i];
                }
                assert forall|q: int| 0 <= q < guesses@.len() implies sound_via(sp, sl, c@, #[trigger] guesses@[q], best as nat) || twin_ranked(sp, sl, c@, guesses@[q], ranked@) by {
                    let x = guesses@[q];
                    if !sound_via(sp, sl, c@, x, best as nat) {
                        assert(twin_ranked(sp, sl, c@, x, unsorted_ranked));
                        let i = choose|i: int| 0 <= i < unsorted_ranked.len() && #[trigger] buckets_same(sp, sl, c@, x, unsorted_ranked[i].3);
                        broadcast use vstd::seq_lib::group_to_multiset_ensures;
                        assert(unsorted_ranked.contains(unsorted_ranked[i]));
                        assert(unsorted_ranked.to_multiset().count(unsorted_ranked[i]) > 0);
                        assert(ranked@.contains(unsorted_ranked[i]));
                        let q = choose|q: int| 0 <= q < ranked@.len() && ranked@[q] == unsorted_ranked[i];
                        assert(buckets_same(sp, sl, c@, x, ranked@[q].3));
                    }
                }
            }
        }
        let mut minimum = best;
        let mut ri: usize = 0;
        while ri < ranked.len()
            invariant
                ri <= ranked@.len(),
                minimum <= best,
                forall|i: int| 0 <= i < ri ==> minimum <= (#[trigger] ranked@[i]).0,
            decreases ranked@.len() - ri,
        {
            if ranked[ri].0 < minimum {
                minimum = ranked[ri].0;
            }
            ri += 1;
        }
        proof { lemma_count_fits(c@.len()); }
        let cur = self.lower(c);
        let current_lower = if cur > minimum {
            cur
        } else {
            minimum
        };
        proof {
            if tgt {
                assert forall|q: int| 0 <= q < guesses@.len() implies #[trigger] sound_via(sp, sl, c@, guesses@[q], minimum as nat) by {
                    let x = guesses@[q];
                    if sound_via(sp, sl, c@, x, best as nat) {
                        lemma_sound_via_weaken(sp, sl, c@, x, best as nat, minimum as nat);
                    } else {
                        assert(twin_ranked(sp, sl, c@, x, ranked@));
                        let i = choose|i: int| 0 <= i < ranked@.len() && #[trigger] buckets_same(sp, sl, c@, x, ranked@[i].3);
                        assert(sound_via(sp, sl, c@, ranked@[i].3, ranked@[i].0 as nat));
                        lemma_via_twin(sp, sl, c@, x, ranked@[i].3, ranked@[i].0 as nat);
                        lemma_sound_via_weaken(sp, sl, c@, x, ranked@[i].0 as nat, minimum as nat);
                    }
                }
                self.lemma_guesses_cover(c@, guesses@, minimum as nat);
                lemma_sound_lower_from_vias(sp, sl, c@, minimum as nat);
                self.lemma_lower_sound(c@);
                if cur > minimum {
                    assert(current_lower == cur);
                } else {
                    assert(current_lower == minimum);
                }
                assert(sound_lower(sp, sl, c@, current_lower as nat));
            }
        }
        let mut entry = match self.memo.get(c) {
            Some(e) => *e,
            None => Entry { lower: current_lower, upper: prior },
        };
        entry.lower = current_lower;
        let ghost before_entry = *self;
        self.memo.insert(slice_to_vec(c), entry);
        proof {
            if inc {
                assert forall|k: Seq<u16>| #[trigger] self.memo_view().contains_key(k) implies increasing(k) by {
                    if k != c@ {
                        assert(before_entry.memo_view().contains_key(k));
                    }
                }
            }
            if sound0 {
                self.lemma_lowers_after_insert(&before_entry, c@, entry);
                self.lemma_grow_insert(&before_entry, c@, entry);
            }
            self.lemma_insert_keeps(old(self), c@);
            if realized0 {
                lemma_realized_insert(sp, slots as nat, before_entry.memo_view(), c@, entry);
            }
        }
        let mut ri: usize = 0;
        while ri < ranked.len()
            invariant
                self.wf(),
                self.same_rules(old(self)),
                keeps_strategies(old(self).memo_view(), self.memo_view()),
                self.memo_view().contains_key(c@),
                n0 == self.size(),
                len == c@.len(),
                3 <= len <= n0,
                n0 <= 1296,
                ids_below(c@, n0),
                best <= limit,
                ri <= ranked@.len(),
                inc ==> self.states_in_order(),
                inc ==> increasing(c@),
                inc == (old(self).states_in_order() && increasing(c@)),
                forall|i: int| 0 <= i < ranked@.len() ==> (#[trigger] ranked@[i]).3 < n0 && forall|j: int|
                    0 <= j < ranked@[i].4@.len() ==> child_ok(#[trigger] ranked@[i].4@[j]@, len as nat, n0),
                forall|i: int| 0 <= i < ranked@.len() ==> buckets_of_ranked(sp, slots as nat, c@, #[trigger] ranked@[i]),
                sp == self.space_view(),
                slots == self.rules().slots,
                realized0 ==> self.strategies_realized(),
                realized0 == old(self).strategies_realized(),
                same_above(old(self).memo_view(), self.memo_view(), len as nat),
                sound0 == old(self).lowers_sound(),
                tgt == (sound0 && old(self).proper_set(c@)),
                sl == slots as nat,
                sound0 ==> self.lowers_sound() && self.lowers_grow(old(self)),
                best <= best0,
                best0 <= limit,
                tgt ==> forall|i: int| 0 <= i < ranked@.len() ==> sound_via(sp, sl, c@, (#[trigger] ranked@[i]).3, ranked@[i].0 as nat),
                tgt ==> forall|i: int| 0 <= i < ri ==> sound_via(sp, sl, c@, (#[trigger] ranked@[i]).3, best as nat),
                tgt ==> forall|q: int| 0 <= q < guesses@.len() ==> sound_via(sp, sl, c@, #[trigger] guesses@[q], best0 as nat) || twin_ranked(sp, sl, c@, guesses@[q], ranked@),
                best < limit ==> self.memo_view()[c@].upper is Some && self.memo_view()[c@].upper->0.total <= best,
                self.memo_view()[c@].upper matches Some(u) ==> (u.total < limit ==> u.total <= best),
            decreases ranked@.len() - ri,
        {
            let ghost before_tick = *self;
            self.tick()?;
            proof {
                lemma_keeps_trans(old(self).memo_view(), before_tick.memo_view(), self.memo_view());
            }
            let guess = ranked[ri].3;
            let children0 = copy_sets(&ranked[ri].4);
            let ghost cs = children_spec(sp, slots as nat, c@, guess as int);
            assert(buckets_of_ranked(sp, slots as nat, c@, ranked@[ri as int]));
            assert(children0.deep_view().to_multiset() == cs.to_multiset());
            assert forall|j: int| 0 <= j < children0@.len() implies child_ok(#[trigger] children0@[j]@, len as nat, n0) by {
                assert(children0.deep_view()[j] == children0@[j]@);
                assert(ranked@[ri as int].4.deep_view()[j] == ranked@[ri as int].4@[j]@);
            }
            let ghost c_entry = self.memo_view()[c@];
            proof {
                if inc {
                    lemma_children_increasing(sp, slots as nat, c@, guess as int);
                    assert forall|j: int| 0 <= j < children0@.len() implies increasing(#[trigger] children0@[j]@) by {
                        broadcast use vstd::seq_lib::group_to_multiset_ensures;
                        assert(children0.deep_view()[j] == children0@[j]@);
                        assert(children0.deep_view().contains(children0@[j]@));
                        assert(children0.deep_view().to_multiset().count(children0@[j]@) > 0);
                        assert(cs.contains(children0@[j]@));
                    }
                }
            }
            if len > 32 {
                let mut k: usize = 0;
                while k < children0.len()
                    invariant
                        self.wf(),
                        self.same_rules(old(self)),
                        keeps_strategies(old(self).memo_view(), self.memo_view()),
                        self.memo_view().contains_key(c@),
                        n0 == self.size(),
                        k <= children0@.len(),
                        forall|j: int| 0 <= j < children0@.len() ==> child_ok(#[trigger] children0@[j]@, len as nat, n0),
                        len <= 1296,
                        sp == self.space_view(),
                        slots == self.rules().slots,
                        realized0 ==> self.strategies_realized(),
                        same_above(old(self).memo_view(), self.memo_view(), len as nat),
                        sound0 == old(self).lowers_sound(),
                        sound0 ==> self.lowers_sound() && self.lowers_grow(old(self)),
                        self.memo_view().contains_key(c@),
                        self.memo_view()[c@] == c_entry,
                        len == c@.len(),
                        inc ==> self.states_in_order(),
                        inc ==> forall|j: int| 0 <= j < children0@.len() ==> increasing(#[trigger] children0@[j]@),
                    decreases children0@.len() - k,
                {
                    let ghost before = *self;
                    assert(child_ok(children0@[k as int]@, len as nat, n0));
                    proof { lemma_count_fits(children0[k as int]@.len()); }
                    self.tighten_one_ply(children0[k].as_slice());
                    proof {
                        assert(same_above(before.memo_view(), self.memo_view(), len as nat)) by {
                            assert forall|q: Seq<u16>| q.len() > len implies #[trigger] self.memo_view().contains_key(q)
                                == before.memo_view().contains_key(q) && (before.memo_view().contains_key(q) ==> self.memo_view()[q]
                                == before.memo_view()[q]) by {
                                assert(q != children0@[k as int]@);
                            }
                        }
                        lemma_same_above_trans(old(self).memo_view(), before.memo_view(), self.memo_view(), len as nat, len as nat, len as nat);
                        assert(c@ != children0@[k as int]@);
                        if sound0 {
                            self.lemma_grow_trans(&before, old(self));
                        }
                        lemma_keeps_trans(old(self).memo_view(), before.memo_view(), self.memo_view());
                        if realized0 {
                            lemma_realized_same_uppers(sp, slots as nat, before.memo_view(), self.memo_view());
                        }
                    }
                    k += 1;
                }
            }
            let ghost t_self = *self;
            let ghost lows = Map::new(|y: Seq<u16>| true, |y: Seq<u16>| t_self.lower_spec(y));
            let ghost c0dv = children0.deep_view();
            let mut remaining: usize = 0;
            let mut k: usize = 0;
            while k < children0.len()
                invariant
                    self.wf(),
                    n0 == self.size(),
                    k <= children0@.len(),
                    forall|j: int| 0 <= j < children0@.len() ==> child_ok(#[trigger] children0@[j]@, len as nat, n0),
                    len <= 1296,
                    *self == t_self,
                    c0dv == children0.deep_view(),
                    forall|y: Seq<u16>| #[trigger] lows[y] == t_self.lower_spec(y),
                    remaining <= sum_to(c0dv, k as int, lows),
                decreases children0@.len() - k,
            {
                assert(child_ok(children0@[k as int]@, len as nat, n0));
                proof { lemma_count_fits(children0[k as int]@.len()); }
                let l = self.lower(children0[k].as_slice());
                proof {
                    assert(c0dv[k as int] == children0@[k as int]@);
                    assert(lows[c0dv[k as int]] == l);
                }
                remaining = sat_add(remaining, l);
                k += 1;
            }
            proof {
                if tgt {
                    assert forall|y: Seq<u16>| #[trigger] c0dv.contains(y) implies sound_lower(sp, sl, y, lows[y]) by {
                        let j = choose|j: int| 0 <= j < c0dv.len() && c0dv[j] == y;
                        assert(c0dv[j] == children0@[j]@);
                        assert(child_ok(children0@[j]@, len as nat, n0));
                        broadcast use vstd::seq_lib::group_to_multiset_ensures;
                        assert(c0dv.to_multiset().count(y) > 0);
                        assert(cs.contains(y));
                        t_self.lemma_child_proper(c@, guess, y);
                        t_self.lemma_lower_sound(y);
                    }
                }
            }
            if !(sat_add(len, remaining) < best) {
                proof {
                    if tgt {
                        lemma_via_sum(sp, sl, c@, guess, c0dv, lows, best as nat);
                    }
                }
            }
            if sat_add(len, remaining) < best {
                let children = sort_sets(children0, true);
                assert forall|j: int| 0 <= j < children@.len() implies child_ok(#[trigger] children@[j]@, len as nat, n0) by {
                    let x = children@[j];
                    let q = choose|q: int| 0 <= q < children0@.len() && children0@[q] == x;
                    assert(child_ok(children0@[q]@, len as nat, n0));
                }
                let ghost cd = children.deep_view();
                proof {
                    lemma_children_distinct(sp, slots as nat, c@, guess as int);
                    cs.lemma_multiset_has_no_duplicates();
                    cd.lemma_multiset_has_no_duplicates_conv();
                }
                let ghost mut nodes: Map<Seq<u16>, Node> = Map::empty();
                let ghost mut ws: Map<Seq<u16>, Map<Seq<u16>, u16>> = Map::empty();
                let ghost mut bnd: Map<Seq<u16>, nat> = lows;
                let ghost c_entry2 = self.memo_view()[c@];
                proof {
                    assert(cd.to_multiset() == c0dv.to_multiset());
                    lemma_sum_order(cd, c0dv, lows);
                    lemma_sum_split(cd, 0, lows);
                    assert(sum_to(cd, 0, bnd) == 0);
                    assert forall|j: int| 0 <= j < cd.len() implies #[trigger] c0dv.contains(cd[j]) by {
                        broadcast use vstd::seq_lib::group_to_multiset_ensures;
                        assert(cd.contains(cd[j]));
                        assert(cd.to_multiset().count(cd[j]) > 0);
                        assert(c0dv.to_multiset().count(cd[j]) > 0);
                    }
                    if tgt {
                        assert forall|j: int| 0 <= j < cd.len() implies sound_lower(sp, sl, #[trigger] cd[j], bnd[cd[j]]) by {
                            assert(c0dv.contains(cd[j]));
                        }
                    }
                }
                let mut cost: usize = len;
                let mut worst: usize = 1;
                let mut feasible = true;
                let mut k: usize = 0;
                while k < children.len()
                    invariant_except_break
                        feasible,
                    invariant
                        self.wf(),
                        self.same_rules(old(self)),
                        keeps_strategies(old(self).memo_view(), self.memo_view()),
                        self.memo_view().contains_key(c@),
                        n0 == self.size(),
                        len == c@.len(),
                        3 <= len <= n0,
                        n0 <= 1296,
                        ids_below(c@, n0),
                        best <= limit,
                        k <= children@.len(),
                        forall|j: int| 0 <= j < children@.len() ==> child_ok(#[trigger] children@[j]@, len as nat, n0),
                        cost < best,
                        1 <= worst <= len,
                        sp == self.space_view(),
                        slots == self.rules().slots,
                        realized0 ==> self.strategies_realized(),
                        realized0 == old(self).strategies_realized(),
                        cd == children.deep_view(),
                        cd.no_duplicates(),
                        same_above(old(self).memo_view(), self.memo_view(), len as nat),
                        sound0 == old(self).lowers_sound(),
                        tgt == (sound0 && old(self).proper_set(c@)),
                        sl == slots as nat,
                        sound0 ==> self.lowers_sound() && self.lowers_grow(old(self)) && self.lowers_grow(&t_self),
                        t_self.same_rules(old(self)),
                        sound0 ==> t_self.lowers_sound(),
                        forall|y: Seq<u16>| #[trigger] lows[y] == t_self.lower_spec(y),
                        cd.to_multiset() == children_spec(sp, sl, c@, guess as int).to_multiset(),
                        cs == children_spec(sp, sl, c@, guess as int),
                        c0dv.to_multiset() == cs.to_multiset(),
                        t_self.wf(),
                        (guess as nat) < n0,
                        forall|j: int| 0 <= j < cd.len() ==> #[trigger] c0dv.contains(cd[j]),
                        cost == len + sum_to(cd, k as int, bnd),
                        tgt ==> remaining <= sum_from(cd, k as int, bnd),
                        forall|j: int| k <= j < cd.len() ==> #[trigger] bnd[cd[j]] == lows[cd[j]],
                        tgt ==> forall|j: int| 0 <= j < cd.len() ==> sound_lower(sp, sl, #[trigger] cd[j], bnd[cd[j]]),
                        self.memo_view().contains_key(c@),
                        self.memo_view()[c@] == c_entry2,
                        inc ==> self.states_in_order(),
                        inc ==> increasing(c@),
                        inc == (old(self).states_in_order() && increasing(c@)),
                        inc ==> forall|j: int| 0 <= j < cd.len() ==> increasing(#[trigger] cd[j]),
                        cost == len + forest_total(cd.take(k as int), nodes),
                        worst == forest_worst(cd.take(k as int), nodes),
                        forall|j: int| 0 <= j < k ==> ws.contains_key(#[trigger] cd[j]) && (realized0 ==> (strategy_tree(
                            sp,
                            slots as nat,
                            ws[cd[j]],
                            cd[j],
                        ) matches Ok(t) && t.total <= nodes[cd[j]].total && t.worst <= nodes[cd[j]].worst && (exact_state(
                            sp,
                            slots as nat,
                            cd[j],
                        ) ==> t.total == nodes[cd[j]].total && t.worst == nodes[cd[j]].worst))),
                        realized0 ==> forall|x: Seq<u16>| #[trigger] ws.contains_key(x) ==> guesses_in(ws[x], sp.len()),
                    ensures
                        feasible ==> k == children@.len(),
                        !feasible ==> (tgt ==> sound_via(sp, sl, c@, guess, best as nat)),
                    decreases children@.len() - k,
                {
                    let child = &children[k];
                    assert(child_ok(children@[k as int]@, len as nat, n0));
                    assert(cd[k as int] == child@);
                    proof { lemma_count_fits(child@.len()); }
                    let l = self.lower(child.as_slice());
                    let ghost rem_before = remaining;
                    remaining = remaining.saturating_sub(l);
                    proof {
                        if tgt {
                            assert(c0dv.contains(child@));
                            assert(t_self.proper_set(child@)) by {
                                broadcast use vstd::seq_lib::group_to_multiset_ensures;
                                assert(c0dv.to_multiset().count(child@) > 0);
                                assert(cs.contains(child@));
                                t_self.lemma_child_proper(c@, guess, child@);
                            }
                            assert(l >= t_self.lower_spec(child@));
                            assert(bnd[cd[k as int]] == lows[cd[k as int]]);
                            assert(remaining <= sum_from(cd, k + 1, bnd));
                        }
                    }
                    if sat_add(cost, remaining) >= best {
                        proof {
                            if tgt {
                                let b0 = bnd.insert(child@, 0);
                                assert forall|j: int| 0 <= j < cd.len() && j != k implies #[trigger] bnd[cd[j]] == b0[cd[j]] by {
                                    assert(cd[j] != cd[k as int]);
                                }
                                lemma_sum_agree(cd, k as int, bnd, b0);
                                lemma_sum_split(cd, k as int, b0);
                                assert forall|y: Seq<u16>| #[trigger] cd.contains(y) implies sound_lower(sp, sl, y, b0[y]) by {
                                    let j = choose|j: int| 0 <= j < cd.len() && cd[j] == y;
                                    if j != k {
                                        assert(cd[j] != cd[k as int]);
                                    }
                                }
                                lemma_via_sum(sp, sl, c@, guess, cd, b0, best as nat);
                            }
                        }
                        feasible = false;
                        break;
                    }
                    let allowance = best - cost - remaining;
                    let ghost before = *self;
                    match self.solve(child.as_slice(), allowance) {
                        Err(e) => {
                            proof {
                                assert(child@ == cd[k as int]);
                                lemma_keeps_trans(old(self).memo_view(), before.memo_view(), self.memo_view());
                                lemma_same_above_trans(old(self).memo_view(), before.memo_view(), self.memo_view(), len as nat, child@.len(), len as nat);
                                if sound0 {
                                    self.lemma_grow_trans(&before, old(self));
                                }
                            }
                            return Err(e);
                        },
                        Ok(Some(node)) => {
                            proof {
                                lemma_keeps_trans(old(self).memo_view(), before.memo_view(), self.memo_view());
                                lemma_same_above_trans(old(self).memo_view(), before.memo_view(), self.memo_view(), len as nat, child@.len(), len as nat);
                                let x = cd[k as int];
                                assert(x == child@);
                                let w = choose|w: Map<Seq<u16>, u16>| #[trigger]
                                    strategy_tree(sp, slots as nat, w, x) matches Ok(t) && guesses_in(w, sp.len())
                                        && t.guess == node.guess && t.total <= node.total && t.worst <= node.worst && (
                                        exact_state(sp, slots as nat, x) ==> t.total == node.total && t.worst == node.worst);
                                lemma_forest_push(cd, k as int, nodes, node);
                                assert forall|j: int| 0 <= j < k implies #[trigger] cd[j] != x by {}
                                nodes = nodes.insert(x, node);
                                ws = ws.insert(x, w);
                                if sound0 {
                                    self.lemma_grow_trans(&before, old(self));
                                    self.lemma_grow_trans(&before, &t_self);
                                }
                                let b1 = bnd.insert(x, node.total as nat);
                                assert forall|j: int| 0 <= j < cd.len() && j != k implies #[trigger] bnd[cd[j]] == b1[cd[j]] by {
                                    assert(cd[j] != cd[k as int]);
                                }
                                lemma_sum_agree(cd, k as int, bnd, b1);
                                if tgt {
                                    assert(before.proper_set(child@));
                                    assert(sound_lower(sp, sl, x, node.total as nat));
                                    assert forall|j: int| 0 <= j < cd.len() implies sound_lower(sp, sl, #[trigger] cd[j], b1[cd[j]]) by {
                                        if j != k {
                                            assert(cd[j] != cd[k as int]);
                                        }
                                    }
                                }
                                assert forall|j: int| k + 1 <= j < cd.len() implies #[trigger] b1[cd[j]] == lows[cd[j]] by {
                                    assert(cd[j] != cd[k as int]);
                                }
                                bnd = b1;
                                assert(self.memo_view()[c@] == before.memo_view()[c@]);
                            }
                            cost = cost + node.total;
                            let w = 1 + node.worst;
                            if w > worst {
                                worst = w;
                            }
                        },
                        Ok(None) => {
                            proof {
                                lemma_keeps_trans(old(self).memo_view(), before.memo_view(), self.memo_view());
                                lemma_same_above_trans(old(self).memo_view(), before.memo_view(), self.memo_view(), len as nat, child@.len(), len as nat);
                                if sound0 {
                                    self.lemma_grow_trans(&before, old(self));
                                    self.lemma_grow_trans(&before, &t_self);
                                }
                                assert(self.memo_view()[c@] == before.memo_view()[c@]);
                                if tgt {
                                    assert(before.proper_set(child@));
                                    let ba = bnd.insert(child@, allowance as nat);
                                    assert forall|j: int| 0 <= j < cd.len() && j != k implies #[trigger] bnd[cd[j]] == ba[cd[j]] by {
                                        assert(cd[j] != cd[k as int]);
                                    }
                                    lemma_sum_agree(cd, k as int, bnd, ba);
                                    lemma_sum_split(cd, k as int, ba);
                                    assert forall|y: Seq<u16>| #[trigger] cd.contains(y) implies sound_lower(sp, sl, y, ba[y]) by {
                                        let j = choose|j: int| 0 <= j < cd.len() && cd[j] == y;
                                        if j != k {
                                            assert(cd[j] != cd[k as int]);
                                        }
                                    }
                                    lemma_via_sum(sp, sl, c@, guess, cd, ba, best as nat);
                                }
                            }
                            feasible = false;
                            break;
                        },
                    }
                    k += 1;
                }
                proof {
                    if tgt && feasible {
                        assert(k == cd.len());
                        lemma_via_sum(sp, sl, c@, guess, cd, bnd, cost as nat);
                        assert(sound_via(sp, sl, c@, guess, cost as nat));
                    }
                }
                let ghost best_old = best;
                if feasible && cost < best {
                    best = cost;
                    let ghost before = *self;
                    let node = Node { guess, total: cost, worst };
                    proof {
                        if realized0 {
                            assert(cd.take(k as int) =~= cd);
                            assert forall|x: Seq<u16>| #[trigger] cd.contains(x) implies x.len() < c@.len() && ws.contains_key(x)
                                && (strategy_tree(sp, slots as nat, ws[x], x) matches Ok(t) && t.total <= nodes[x].total
                                && t.worst <= nodes[x].worst && (exact_state(sp, slots as nat, x) ==> t.total
                                == nodes[x].total && t.worst == nodes[x].worst)) by {
                                let j = choose|j: int| 0 <= j < cd.len() && cd[j] == x;
                                assert(cd[j] == children@[j]@);
                                assert(child_ok(children@[j]@, len as nat, n0));
                            }
                            lemma_join_realizes(sp, slots as nat, c@, cd, nodes, ws, node);
                        }
                    }
                    self.save_upper(c, node);
                    proof {
                        if inc {
                            let e = self.memo_view()[c@];
                            assert(self.memo_view() == before.memo_view().insert(c@, e));
                            assert forall|q: Seq<u16>| #[trigger] self.memo_view().contains_key(q) implies increasing(q) by {
                                if q != c@ {
                                    assert(before.memo_view().contains_key(q));
                                }
                            }
                        }
                        if sound0 {
                            self.lemma_grow_trans(&before, old(self));
                        }
                        if tgt {
                            assert forall|i: int| 0 <= i < ri implies sound_via(sp, sl, c@, (#[trigger] ranked@[i]).3, best as nat) by {
                                lemma_sound_via_weaken(sp, sl, c@, ranked@[i].3, best_old as nat, best as nat);
                            }
                        }
                        lemma_keeps_trans(old(self).memo_view(), before.memo_view(), self.memo_view());
                        if realized0 {
                            let e = self.memo_view()[c@];
                            assert(self.memo_view() == before.memo_view().insert(c@, e));
                            lemma_realized_insert(sp, slots as nat, before.memo_view(), c@, e);
                        }
                    }
                } else {
                    proof {
                        if tgt && feasible {
                            lemma_sound_via_weaken(sp, sl, c@, guess, cost as nat, best as nat);
                        }
                    }
                }
            }
            proof {
                if tgt {
                    assert(ranked@[ri as int].3 == guess);
                    assert(sound_via(sp, sl, c@, guess, best as nat));
                    assert forall|i: int| 0 <= i < ri + 1 implies sound_via(sp, sl, c@, (#[trigger] ranked@[i]).3, best as nat) by {
                        if i == ri {
                            assert(ranked@[i].3 == guess);
                        }
                    }
                }
            }
            ri += 1;
        }
        proof {
            if tgt {
                assert forall|q: int| 0 <= q < guesses@.len() implies #[trigger] sound_via(sp, sl, c@, guesses@[q], best as nat) by {
                    let x = guesses@[q];
                    if sound_via(sp, sl, c@, x, best0 as nat) {
                        lemma_sound_via_weaken(sp, sl, c@, x, best0 as nat, best as nat);
                    } else {
                        assert(twin_ranked(sp, sl, c@, x, ranked@));
                        let i = choose|i: int| 0 <= i < ranked@.len() && #[trigger] buckets_same(sp, sl, c@, x, ranked@[i].3);
                        assert(sound_via(sp, sl, c@, ranked@[i].3, best as nat));
                        lemma_via_twin(sp, sl, c@, x, ranked@[i].3, best as nat);
                    }
                }
                self.lemma_guesses_cover(c@, guesses@, best as nat);
                lemma_sound_lower_from_vias(sp, sl, c@, best as nat);
                self.lemma_lower_sound(c@);
            }
        }
        let mut entry = match self.memo.get(c) {
            Some(e) => *e,
            None => Entry { lower: best, upper: None },
        };
        let ghost entry_upper = entry.upper;
        assert(entry.lower == self.lower_spec(c@));
        if best > entry.lower {
            entry.lower = best;
        }
        proof {
            if tgt {
                if best > self.lower_spec(c@) {
                    assert(entry.lower == best);
                } else {
                    assert(entry.lower == self.lower_spec(c@));
                }
                assert(sound_lower(sp, sl, c@, entry.lower as nat));
            }
        }
        let ghost before = *self;
        self.memo.insert(slice_to_vec(c), entry);
        proof {
            if inc {
                assert forall|q: Seq<u16>| #[trigger] self.memo_view().contains_key(q) implies increasing(q) by {
                    if q != c@ {
                        assert(before.memo_view().contains_key(q));
                    }
                }
            }
            self.lemma_insert_keeps(&before, c@);
            lemma_keeps_trans(old(self).memo_view(), before.memo_view(), self.memo_view());
            if realized0 {
                lemma_realized_insert(sp, slots as nat, before.memo_view(), c@, entry);
            }
            if sound0 {
                self.lemma_lowers_after_insert(&before, c@, entry);
                self.lemma_grow_insert(&before, c@, entry);
                self.lemma_grow_trans(&before, old(self));
            }
            if tgt {
                match entry.upper {
                    Some(node) => {
                        if node.total < limit {
                            lemma_sound_lower_weaken(sp, sl, c@, best as nat, node.total as nat);
                        } else {
                            assert(best == limit);
                        }
                    },
                    None => {
                        assert(best == limit);
                    },
                }
            }
        }
        match entry.upper {
            Some(node) => if node.total < limit {
                Ok(Some(node))
            } else {
                Ok(None)
            },
            None => Ok(None),
        }
    }

    /// After storing an entry for `c` that keeps any strategy it had, the
    /// state is still well formed and keeps every strategy.
    proof fn lemma_insert_keeps(&self, old_self: &Self, c: Seq<u16>)
        requires
            old_self.wf(),
            self.same_rules(old_self),
            self.memo.wf(),
            self.tightened.wf(),
            ids_below(c, old_self.space@.len()),
            self.memo.view() == old_self.memo.view().insert(c, self.memo.view()[c]),
            self.memo.view()[c].upper matches Some(nd) ==> (nd.guess as nat) < old_self.space@.len() && nd.worst <= c.len() && nd.total < usize::MAX,
            old_self.memo.view().contains_key(c) && old_self.memo.view()[c].upper is Some ==> self.memo.view()[c].upper is Some
                && (c.len() > 2 ==> self.memo.view()[c].upper->0.total <= old_self.memo.view()[c].upper->0.total),
            old_self.memo.view().contains_key(c) && c.len() > 2 ==> self.memo.view()[c].lower >= old_self.memo.view()[c].lower,
            theoretical_lower_spec(c.len(), old_self.nonterminal_branches as nat) <= self.memo.view()[c].lower,
            1 <= c.len(),
        ensures
            self.wf(),
            keeps_strategies(old_self.memo_view(), self.memo_view()),
    {
        assert forall|k: Seq<u16>| #[trigger] self.memo.view().contains_key(k) implies theoretical_lower_spec(
            k.len(),
            self.nonterminal_branches as nat,
        ) <= self.memo.view()[k].lower by {
            if k != c {
                assert(old_self.memo.view().contains_key(k));
            }
        }
        assert forall|k: Seq<u16>| #[trigger] self.memo.view().contains_key(k) implies ids_below(k, self.space@.len())
            && (self.memo.view()[k].upper matches Some(nd) ==> (nd.guess as nat) < self.space@.len() && nd.worst <= k.len() && nd.total < usize::MAX) by {
            if k != c {
                assert(old_self.memo.view().contains_key(k));
            }
        }
    }
}

proof fn lemma_keeps_trans(a: Map<Seq<u16>, Entry>, b: Map<Seq<u16>, Entry>, c: Map<Seq<u16>, Entry>)
    requires
        keeps_strategies(a, b),
        keeps_strategies(b, c),
    ensures
        keeps_strategies(a, c),
{
    assert forall|k: Seq<u16>| #[trigger] a.contains_key(k) implies c.contains_key(k) && (a[k].upper is Some ==> c[k].upper is Some) by {
        assert(b.contains_key(k));
    }
}

/// A copy of a list of candidate sets.
fn copy_sets(v: &Vec<Vec<u16>>) -> (out: Vec<Vec<u16>>)
    ensures
        out.deep_view() == v.deep_view(),
        forall|j: int| 0 <= j < out@.len() ==> (#[trigger] out@[j])@ == v@[j]@,
        out@.len() == v@.len(),
{
    let mut out: Vec<Vec<u16>> = Vec::new();
    let mut i: usize = 0;
    while i < v.len()
        invariant
            i <= v@.len(),
            out@.len() == i,
            forall|j: int| 0 <= j < i ==> (#[trigger] out@[j])@ == v@[j]@,
        decreases v@.len() - i,
    {
        out.push(slice_to_vec(v[i].as_slice()));
        i += 1;
    }
    assert(out.deep_view() =~= v.deep_view());
    out
}


/// Reasons the optimizer refuses a policy text or cannot export its
/// strategies.
#[derive(Debug, Clone, Copy, PartialEq, Eq, Structural)]
pub enum SearchError {
    InvalidRow,
    InvalidId,
    InvalidGuess,
    GuessOutOfRange,
    IncompletePolicy,
    PolicyNoProgress,
    MissingStrategy,
    NoProgress,
}

pub open spec fn search_error_text(e: SearchError) -> Seq<char> {
    match e {
        SearchError::InvalidRow => "invalid policy row"@,
        SearchError::InvalidId => "invalid id"@,
        SearchError::InvalidGuess => "invalid guess"@,
        SearchError::GuessOutOfRange => "guess out of range"@,
        SearchError::IncompletePolicy => "incomplete policy"@,
        SearchError::PolicyNoProgress => "policy makes no progress"@,
        SearchError::MissingStrategy => "missing strategy"@,
        SearchError::NoProgress => "no progress"@,
    }
}

impl SearchError {
    pub fn message(&self) -> (s: &'static str)
        ensures
            s@ == search_error_text(*self),
    {
        match self {
            SearchError::InvalidRow => "invalid policy row",
            SearchError::InvalidId => "invalid id",
            SearchError::InvalidGuess => "invalid guess",
            SearchError::GuessOutOfRange => "guess out of range",
            SearchError::IncompletePolicy => "incomplete policy",
            SearchError::PolicyNoProgress => "policy makes no progress",
            SearchError::MissingStrategy => "missing strategy",
            SearchError::NoProgress => "no progress",
        }
    }
}

/// Why a strategy tree cannot be followed: a state without a guess, or a
/// guess that leaves some candidates undistinguished from all of them.
#[derive(Debug, Clone, Copy, PartialEq, Eq, Structural)]
pub enum TreeFault {
    Missing,
    NoProgress,
}

/// A followed strategy: its first guess, total and largest number of
/// submissions, and for every visited state of two or more candidates its
/// guess and largest number of submissions.
pub struct Strategy {
    pub guess: u16,
    pub total: nat,
    pub worst: nat,
    pub rows: Map<Seq<u16>, (u16, nat)>,
}

/// The strategies below a list of sibling states: the sum of their totals,
/// one more than the largest of their worst cases (at least 1), and their rows.
pub struct Forest {
    pub total: nat,
    pub worst: nat,
    pub rows: Map<Seq<u16>, (u16, nat)>,
}

/// The guess for `c`: the only candidate of a single-candidate state, else
/// the one `guesses` gives.
pub open spec fn tree_guess(guesses: Map<Seq<u16>, u16>, c: Seq<u16>) -> Option<u16> {
    if c.len() == 1 {
        Some(c[0])
    } else if guesses.contains_key(c) {
        Some(guesses[c])
    } else {
        None
    }
}

/// Follows the guesses of `guesses` from state `c` until every candidate is
/// found.
pub open spec fn strategy_tree(sp: Seq<Seq<u8>>, slots: nat, guesses: Map<Seq<u16>, u16>, c: Seq<u16>) -> Result<
    Strategy,
    TreeFault,
>
    decreases c.len(), 1nat, 0nat,
{
    match tree_guess(guesses, c) {
        None => Err(TreeFault::Missing),
        Some(g) => match strategy_forest(sp, slots, guesses, children_spec(sp, slots, c, g as int), c.len()) {
            Err(f) => Err(f),
            Ok(fs) => Ok(
                Strategy {
                    guess: g,
                    total: c.len() + fs.total,
                    worst: fs.worst,
                    rows: if c.len() > 1 {
                        fs.rows.insert(c, (g, fs.worst))
                    } else {
                        fs.rows
                    },
                },
            ),
        },
    }
}

/// Follows the strategies of the states `chs`, in order, each of which must
/// have fewer than `bound` candidates.
pub open spec fn strategy_forest(
    sp: Seq<Seq<u8>>,
    slots: nat,
    guesses: Map<Seq<u16>, u16>,
    chs: Seq<Seq<u16>>,
    bound: nat,
) -> Result<Forest, TreeFault>
    decreases bound, 0nat, chs.len(),
{
    if chs.len() == 0 {
        Ok(Forest { total: 0, worst: 1, rows: Map::empty() })
    } else {
        match strategy_forest(sp, slots, guesses, chs.drop_last(), bound) {
            Err(f) => Err(f),
            Ok(fs) => if chs.last().len() >= bound {
                Err(TreeFault::NoProgress)
            } else {
                match strategy_tree(sp, slots, guesses, chs.last()) {
                    Err(f) => Err(f),
                    Ok(t) => Ok(
                        Forest {
                            total: fs.total + t.total,
                            worst: if t.worst + 1 > fs.worst {
                                t.worst + 1
                            } else {
                                fs.worst
                            },
                            rows: fs.rows.union_prefer_right(t.rows),
                        },
                    ),
                }
            },
        }
    }
}

/// An error in the first `k` states of a forest is the forest's error.
proof fn lemma_forest_prefix_err(
    sp: Seq<Seq<u8>>,
    slots: nat,
    guesses: Map<Seq<u16>, u16>,
    chs: Seq<Seq<u16>>,
    bound: nat,
    k: int,
)
    requires
        0 <= k <= chs.len(),
        strategy_forest(sp, slots, guesses, chs.take(k), bound) is Err,
    ensures
        strategy_forest(sp, slots, guesses, chs, bound) == strategy_forest(sp, slots, guesses, chs.take(k), bound),
    decreases chs.len(),
{
    if k == chs.len() {
        assert(chs.take(k) =~= chs);
    } else {
        assert(chs.drop_last().take(k) =~= chs.take(k));
        lemma_forest_prefix_err(sp, slots, guesses, chs.drop_last(), bound, k);
    }
}

proof fn lemma_sum_lens_prefix(s: Seq<Seq<u16>>, k: int)
    requires
        0 <= k <= s.len(),
    ensures
        sum_lens(s.take(k)) <= sum_lens(s),
    decreases s.len(),
{
    if k < s.len() {
        assert(s.drop_last().take(k) =~= s.take(k));
        lemma_sum_lens_prefix(s.drop_last(), k);
    } else {
        assert(s.take(k) =~= s);
    }
}

/// The strategy kept for a state after offering it `node`: the cheaper of
/// the two, the earlier one on a tie.
pub open spec fn improved(prev: Option<Node>, node: Node) -> Option<Node> {
    match prev {
        Some(p) => if node.total < p.total {
            Some(node)
        } else {
            Some(p)
        },
        None => Some(node),
    }
}

/// `now` is what offering `k` the strategy that `guesses` gives from it
/// leaves of `prev`.
pub open spec fn offered(
    sp: Seq<Seq<u8>>,
    slots: nat,
    guesses: Map<Seq<u16>, u16>,
    k: Seq<u16>,
    prev: Option<Node>,
    now: Option<Node>,
) -> bool {
    strategy_tree(sp, slots, guesses, k) matches Ok(t) && now == improved(prev, strategy_node(t))
}

/// Offering the same strategy twice keeps what offering it once kept.
proof fn lemma_improved_twice(prev: Option<Node>, node: Node)
    ensures
        improved(improved(prev, node), node) == improved(prev, node),
{
}

/// The counting bound of a state no larger than the full space fits in a
/// machine word.
proof fn lemma_count_fits(n: nat)
    requires
        n <= 1296,
    ensures
        n * (n + 1) <= usize::MAX,
        (n + 1) * (n + 2) <= usize::MAX,
{
    assert((n + 1) * (n + 2) <= 1297 * 1298) by (nonlinear_arith)
        requires
            n <= 1296,
    ;
    assert(n * (n + 1) <= (n + 1) * (n + 2)) by (nonlinear_arith);
}

/// Where the counting bound of one more candidate fits, so does that of
/// `n`.
proof fn lemma_fits_below(n: nat)
    requires
        (n + 1) * (n + 2) <= usize::MAX,
    ensures
        n * (n + 1) <= usize::MAX,
{
    assert(n * (n + 1) <= (n + 1) * (n + 2)) by (nonlinear_arith);
}

/// Two offers in turn, each of a state's own strategy, amount to one.
proof fn lemma_offer_compose(
    sp: Seq<Seq<u8>>,
    slots: nat,
    guesses: Map<Seq<u16>, u16>,
    k: Seq<u16>,
    a: Option<Node>,
    b: Option<Node>,
    c: Option<Node>,
)
    requires
        b == a || offered(sp, slots, guesses, k, a, b),
        c == b || offered(sp, slots, guesses, k, b, c),
    ensures
        c == a || offered(sp, slots, guesses, k, a, c),
        offered(sp, slots, guesses, k, a, b) ==> offered(sp, slots, guesses, k, a, c),
        offered(sp, slots, guesses, k, b, c) ==> offered(sp, slots, guesses, k, a, c),
{
    if let Ok(t) = strategy_tree(sp, slots, guesses, k) {
        lemma_improved_twice(a, strategy_node(t));
    }
}

/// Every candidate id of a space of `n` codes, in order.
pub open spec fn all_ids(n: nat) -> Seq<u16> {
    Seq::new(n, |i: int| i as u16)
}

/// One line of a policy text to seed from: `ids;guess;steps`, ids separated
/// by commas; the guess must be a code of the space. The last field is not
/// read.
pub open spec fn seed_row(line: Seq<u8>, n: nat) -> Result<(Seq<u16>, u16), SearchError> {
    let fields = split_on(line, 59u8);
    if fields.len() != 3 {
        Err(SearchError::InvalidRow)
    } else {
        let parts = split_on(fields[0], 44u8);
        if exists|i: int| 0 <= i < parts.len() && #[trigger] parse_unsigned(parts[i], 65535) is None {
            Err(SearchError::InvalidId)
        } else {
            match parse_unsigned(fields[1], 65535) {
                None => Err(SearchError::InvalidGuess),
                Some(g) => if g >= n {
                    Err(SearchError::GuessOutOfRange)
                } else {
                    Ok((row_ids(parts), g as u16))
                },
            }
        }
    }
}

/// The guesses a policy text gives, a later line for the same state
/// replacing an earlier one; or the error of the first bad line.
pub open spec fn seed_rows(lines: Seq<Seq<u8>>, n: nat) -> Result<Map<Seq<u16>, u16>, SearchError>
    decreases lines.len(),
{
    if lines.len() == 0 {
        Ok(Map::empty())
    } else {
        match seed_rows(lines.drop_last(), n) {
            Err(e) => Err(e),
            Ok(m) => match seed_row(lines.last(), n) {
                Err(e) => Err(e),
                Ok((ids, g)) => Ok(m.insert(ids, g)),
            },
        }
    }
}

proof fn lemma_seed_rows_prefix_err(lines: Seq<Seq<u8>>, n: nat, j: int)
    requires
        0 <= j <= lines.len(),
        seed_rows(lines.take(j), n) is Err,
    ensures
        seed_rows(lines, n) == seed_rows(lines.take(j), n),
    decreases lines.len(),
{
    if j == lines.len() {
        assert(lines.take(j) =~= lines);
    } else {
        assert(lines.drop_last().take(j) =~= lines.take(j));
        lemma_seed_rows_prefix_err(lines.drop_last(), n, j);
    }
}

/// Reads one line of a policy text to seed from.
fn parse_seed_row(line: &[u8], n: usize) -> (r: Result<(Vec<u16>, u16), SearchError>)
    ensures
        r matches Ok((ids, g)) ==> seed_row(line@, n as nat) == Ok::<(Seq<u16>, u16), SearchError>((ids@, g)),
        r matches Err(e) ==> seed_row(line@, n as nat) == Err::<(Seq<u16>, u16), SearchError>(e),
{
    let fields = split_bytes(line, 59u8);
    let ghost fv = fields.deep_view();
    if fields.len() != 3 {
        return Err(SearchError::InvalidRow);
    }
    assert(fv[0] == fields@[0]@ && fv[1] == fields@[1]@);
    let parts = split_bytes(fields[0].as_slice(), 44u8);
    let ghost pv = parts.deep_view();
    let mut ids: Vec<u16> = Vec::new();
    let mut i: usize = 0;
    while i < parts.len()
        invariant
            i <= parts@.len(),
            pv == parts.deep_view(),
            fv == split_on(line@, 59u8),
            fv.len() == 3,
            pv == split_on(fv[0], 44u8),
            ids@.len() == i,
            forall|q: int| 0 <= q < i ==> #[trigger] parse_unsigned(pv[q], 65535) is Some,
            forall|q: int| 0 <= q < i ==> #[trigger] ids@[q] == row_ids(pv)[q],
        decreases parts@.len() - i,
    {
        assert(pv[i as int] == parts@[i as int]@);
        match parse_number(parts[i].as_slice(), 65535) {
            Some(v) => {
                ids.push(v as u16);
            },
            None => {
                assert(parse_unsigned(pv[i as int], 65535) is None);
                return Err(SearchError::InvalidId);
            },
        }
        i += 1;
    }
    assert(ids@ =~= row_ids(pv));
    let g = match parse_number(fields[1].as_slice(), 65535) {
        Some(v) => v,
        None => {
            return Err(SearchError::InvalidGuess);
        },
    };
    if g as usize >= n {
        return Err(SearchError::GuessOutOfRange);
    }
    Ok((ids, g as u16))
}

/// The node that sums up a followed strategy.
pub open spec fn strategy_node(t: Strategy) -> Node {
    Node { guess: t.guess, total: t.total as usize, worst: t.worst as usize }
}

impl Optimizer {
    /// What seeding from the policy text with bytes `text` gives: the
    /// strategy it describes from the full space, or why it is refused.
    pub open spec fn seed_outcome(&self, text: Seq<u8>) -> Result<Strategy, SearchError> {
        match seed_rows(lines_of(text), self.size()) {
            Err(e) => Err(e),
            Ok(table) => match strategy_tree(self.space_view(), self.rules().slots as nat, table, all_ids(self.size())) {
                Err(TreeFault::Missing) => Err(SearchError::IncompletePolicy),
                Err(TreeFault::NoProgress) => Err(SearchError::PolicyNoProgress),
                Ok(t) => Ok(t),
            },
        }
    }

    /// Records the strategy that the policy text `text` describes (lines
    /// `ids;guess;steps`, as `export_policy` writes them) as the strategy of
    /// every state it visits from the full space, where it is cheaper than
    /// the one known: every state with a line, and every state the guess of
    /// such a line leads to.
    pub fn seed_policy(&mut self, text: &str) -> (r: Result<(), String>)
        requires
            old(self).wf(),
        ensures
            final(self).wf(),
            final(self).same_rules(old(self)),
            keeps_strategies(old(self).memo_view(), final(self).memo_view()),
            r is Ok <==> old(self).seed_outcome(text.spec_bytes()) is Ok,
            old(self).seed_outcome(text.spec_bytes()) matches Ok(t) ==> final(self).upper_spec(all_ids(old(self).size()))
                == improved(old(self).upper_spec(all_ids(old(self).size())), strategy_node(t)),
            old(self).seed_outcome(text.spec_bytes()) matches Ok(t) ==> forall|k: Seq<u16>| #[trigger] t.rows.contains_key(
                k,
            ) ==> offered(
                old(self).space_view(),
                old(self).rules().slots as nat,
                seed_rows(lines_of(text.spec_bytes()), old(self).size())->Ok_0,
                k,
                old(self).upper_spec(k),
                final(self).upper_spec(k),
            ),
            old(self).seed_outcome(text.spec_bytes()) matches Ok(t) ==> forall|k: Seq<u16>, x: Seq<u16>| #[trigger]
                t.rows.contains_key(k) && #[trigger] children_spec(
                old(self).space_view(),
                old(self).rules().slots as nat,
                k,
                t.rows[k].0 as int,
            ).contains(x) ==> offered(
                old(self).space_view(),
                old(self).rules().slots as nat,
                seed_rows(lines_of(text.spec_bytes()), old(self).size())->Ok_0,
                x,
                old(self).upper_spec(x),
                final(self).upper_spec(x),
            ),
            forall|k: Seq<u16>| #[trigger] final(self).upper_spec(k) == old(self).upper_spec(k) || (seed_rows(
                lines_of(text.spec_bytes()),
                old(self).size(),
            ) is Ok && offered(
                old(self).space_view(),
                old(self).rules().slots as nat,
                seed_rows(lines_of(text.spec_bytes()), old(self).size())->Ok_0,
                k,
                old(self).upper_spec(k),
                final(self).upper_spec(k),
            )),
            r matches Err(msg) ==> msg@ == search_error_text(old(self).seed_outcome(text.spec_bytes())->Err_0),
            seed_rows(lines_of(text.spec_bytes()), old(self).size()) is Err ==> final(self).memo_view() == old(
                self,
            ).memo_view(),
            seed_rows(lines_of(text.spec_bytes()), old(self).size()) matches Ok(tb) && old(self).size() > 1
                && !tb.contains_key(all_ids(old(self).size())) ==> final(self).memo_view() == old(self).memo_view(),
            final(self).rules() == old(self).rules(),
            final(self).space_view() == old(self).space_view(),
            final(self).size() == old(self).size(),
            old(self).strategies_realized() ==> final(self).strategies_realized(),
            old(self).lowers_sound() ==> final(self).lowers_sound(),
            old(self).states_in_order() ==> final(self).states_in_order(),
    {
        let n = self.space.len();
        let lines = split_lines(text.as_bytes());
        let ghost lv = lines.deep_view();
        let mut table: KeyMap<u16> = KeyMap::new();
        let mut i: usize = 0;
        while i < lines.len()
            invariant
                i <= lines@.len(),
                lv == lines.deep_view(),
                lv == lines_of(text.spec_bytes()),
                n == self.size(),
                table.wf(),
                self.wf(),
                *self == *old(self),
                seed_rows(lv.take(i as int), n as nat) == Ok::<Map<Seq<u16>, u16>, SearchError>(table.view()),
                forall|k: Seq<u16>| #[trigger] table.view().contains_key(k) ==> (table.view()[k] as nat) < n,
            decreases lines@.len() - i,
        {
            assert(lv.take(i + 1).drop_last() =~= lv.take(i as int));
            assert(lv.take(i + 1).last() == lines@[i as int]@);
            match parse_seed_row(lines[i].as_slice(), n) {
                Err(e) => {
                    proof {
                        lemma_seed_rows_prefix_err(lv, n as nat, i + 1);
                    }
                    return Err(String::from_str(e.message()));
                },
                Ok((ids, g)) => {
                    table.insert(ids, g);
                },
            }
            i += 1;
        }
        assert(lv.take(lines@.len() as int) =~= lv);
        let root = self.root();
        match self.seed_visit(root.as_slice(), &table) {
            Ok(_) => Ok(()),
            Err(f) => {
                let e = match f {
                    TreeFault::Missing => SearchError::IncompletePolicy,
                    TreeFault::NoProgress => SearchError::PolicyNoProgress,
                };
                Err(String::from_str(e.message()))
            },
        }
    }

    /// Follows `table` from `c`, recording the strategy of every state
    /// visited, deepest first, where it is cheaper than the one known.
    fn seed_visit(&mut self, c: &[u16], table: &KeyMap<u16>) -> (r: Result<Node, TreeFault>)
        requires
            old(self).wf(),
            table.wf(),
            forall|k: Seq<u16>| #[trigger] table.view().contains_key(k) ==> (table.view()[k] as nat) < old(self).size(),
            1 <= c@.len() <= old(self).size(),
            ids_below(c@, old(self).size()),
        ensures
            final(self).wf(),
            final(self).same_rules(old(self)),
            keeps_strategies(old(self).memo_view(), final(self).memo_view()),
            forall|k: Seq<u16>| k.len() >= c@.len() && k != c@ ==> (#[trigger] final(self).memo_view().contains_key(k)
                == old(self).memo_view().contains_key(k)) && (old(self).memo_view().contains_key(k)
                ==> final(self).memo_view()[k] == old(self).memo_view()[k]),
            r matches Ok(node) ==> strategy_tree(old(self).space_view(), old(self).rules().slots as nat, table.view(), c@)
                matches Ok(t) && t.guess == node.guess && t.total == node.total && t.worst == node.worst
                && node.total <= c@.len() * c@.len() && 1 <= node.worst <= c@.len()
                && final(self).upper_spec(c@) == improved(old(self).upper_spec(c@), node)
                && final(self).lower_spec(c@) == old(self).lower_spec(c@),
            r matches Err(f) ==> strategy_tree(old(self).space_view(), old(self).rules().slots as nat, table.view(), c@)
                == Err::<Strategy, TreeFault>(f),
            tree_guess(table.view(), c@) is None ==> *final(self) == *old(self),
            forall|k: Seq<u16>| #[trigger] final(self).upper_spec(k) == old(self).upper_spec(k) || offered(
                old(self).space_view(),
                old(self).rules().slots as nat,
                table.view(),
                k,
                old(self).upper_spec(k),
                final(self).upper_spec(k),
            ),
            r is Ok ==> forall|k: Seq<u16>| #[trigger] strategy_tree(
                old(self).space_view(),
                old(self).rules().slots as nat,
                table.view(),
                c@,
            )->Ok_0.rows.contains_key(k) ==> offered(
                old(self).space_view(),
                old(self).rules().slots as nat,
                table.view(),
                k,
                old(self).upper_spec(k),
                final(self).upper_spec(k),
            ),
            r is Ok ==> offered(
                old(self).space_view(),
                old(self).rules().slots as nat,
                table.view(),
                c@,
                old(self).upper_spec(c@),
                final(self).upper_spec(c@),
            ),
            r is Ok ==> forall|k: Seq<u16>, x: Seq<u16>| #[trigger] strategy_tree(
                old(self).space_view(),
                old(self).rules().slots as nat,
                table.view(),
                c@,
            )->Ok_0.rows.contains_key(k) && #[trigger] children_spec(
                old(self).space_view(),
                old(self).rules().slots as nat,
                k,
                strategy_tree(old(self).space_view(), old(self).rules().slots as nat, table.view(), c@)->Ok_0.rows[k].0 as int,
            ).contains(x) ==> offered(
                old(self).space_view(),
                old(self).rules().slots as nat,
                table.view(),
                x,
                old(self).upper_spec(x),
                final(self).upper_spec(x),
            ),
            old(self).states_in_order() && increasing(c@) ==> final(self).states_in_order(),
            old(self).strategies_realized() ==> final(self).strategies_realized(),
            old(self).lowers_sound() ==> final(self).lowers_sound() && final(self).lowers_grow(old(self)),
        decreases c@.len(),
    {
        let ghost n0 = self.size();
        let ghost realized0 = self.strategies_realized();
        let ghost sp = self.space_view();
        let ghost slots = self.rules().slots as nat;
        let len = c.len();
        let guess = if len == 1 {
            c[0]
        } else {
            match table.get(c) {
                Some(g) => *g,
                None => {
                    return Err(TreeFault::Missing);
                },
            }
        };
        assert(tree_guess(table.view(), c@) == Some(guess));
        let children = self.children(c, guess);
        let ghost cv = children.deep_view();
        proof {
            lemma_children_subset(sp, slots, c@, guess as int);
            if increasing(c@) {
                lemma_children_increasing(sp, slots, c@, guess as int);
            }
        }
        let mut total: usize = len;
        let mut worst: usize = 1;
        let mut k: usize = 0;
        while k < children.len()
            invariant
                self.wf(),
                self.same_rules(old(self)),
                keeps_strategies(old(self).memo_view(), self.memo_view()),
                forall|q: Seq<u16>| q.len() >= c@.len() ==> (#[trigger] self.memo_view().contains_key(q)
                    == old(self).memo_view().contains_key(q)) && (old(self).memo_view().contains_key(q)
                    ==> self.memo_view()[q] == old(self).memo_view()[q]),
                table.wf(),
                forall|q: Seq<u16>| #[trigger] table.view().contains_key(q) ==> (table.view()[q] as nat) < n0,
                n0 == self.size(),
                n0 <= 1296,
                sp == self.space_view(),
                slots == self.rules().slots,
                len == c@.len(),
                1 <= len <= n0,
                ids_below(c@, n0),
                cv == children.deep_view(),
                cv == children_spec(sp, slots, c@, guess as int),
                tree_guess(table.view(), c@) == Some(guess),
                sum_lens(cv) <= len,
                forall|x: Seq<u16>| #[trigger] cv.contains(x) ==> x.len() > 0 && x.len() <= c@.len() && forall|i: int|
                    0 <= i < x.len() ==> c@.contains(#[trigger] x[i]),
                k <= cv.len(),
                strategy_forest(sp, slots, table.view(), cv.take(k as int), len as nat) matches Ok(fs) && fs.total + len
                    == total && fs.worst == worst && (forall|q: Seq<u16>| #[trigger] fs.rows.contains_key(q) ==> offered(
                    sp,
                    slots,
                    table.view(),
                    q,
                    old(self).upper_spec(q),
                    self.upper_spec(q),
                )) && forall|q: Seq<u16>, x: Seq<u16>| #[trigger] fs.rows.contains_key(q) && #[trigger] children_spec(
                    sp,
                    slots,
                    q,
                    fs.rows[q].0 as int,
                ).contains(x) ==> offered(sp, slots, table.view(), x, old(self).upper_spec(x), self.upper_spec(x)),
                forall|j: int| 0 <= j < k ==> offered(
                    sp,
                    slots,
                    table.view(),
                    #[trigger] cv[j],
                    old(self).upper_spec(cv[j]),
                    self.upper_spec(cv[j]),
                ),
                forall|q: Seq<u16>| #[trigger] self.upper_spec(q) == old(self).upper_spec(q) || offered(
                    sp,
                    slots,
                    table.view(),
                    q,
                    old(self).upper_spec(q),
                    self.upper_spec(q),
                ),
                total <= len + (len - 1) * sum_lens(cv.take(k as int)),
                1 <= worst <= len,
                realized0 == old(self).strategies_realized(),
                realized0 ==> self.strategies_realized(),
                old(self).lowers_sound() ==> self.lowers_sound() && self.lowers_grow(old(self)),
                old(self).states_in_order() && increasing(c@) ==> self.states_in_order() && forall|x: Seq<u16>|
                    #[trigger] cv.contains(x) ==> increasing(x),
            decreases cv.len() - k,
        {
            let child = &children[k];
            assert(cv[k as int] == child@);
            assert(cv.contains(child@));
            assert(cv.take(k + 1).drop_last() =~= cv.take(k as int));
            assert(cv.take(k + 1).last() == child@);
            if child.len() == len {
                proof {
                    assert(strategy_forest(sp, slots, table.view(), cv.take(k + 1), len as nat) is Err);
                    lemma_forest_prefix_err(sp, slots, table.view(), cv, len as nat, k + 1);
                    assert(strategy_forest(sp, slots, table.view(), cv, len as nat) == Err::<Forest, TreeFault>(TreeFault::NoProgress));
                    assert(strategy_tree(sp, slots, table.view(), c@) == Err::<Strategy, TreeFault>(TreeFault::NoProgress));
                }
                return Err(TreeFault::NoProgress);
            }
            proof {
                assert forall|i: int| 0 <= i < child@.len() implies (#[trigger] child@[i] as nat) < n0 by {
                    assert(c@.contains(child@[i]));
                    let q = choose|q: int| 0 <= q < c@.len() && c@[q] == child@[i];
                    assert((c@[q] as nat) < n0);
                }
            }
            let ghost before = *self;
            match self.seed_visit(child.as_slice(), table) {
                Err(f) => {
                    proof {
                        assert forall|q: Seq<u16>| #[trigger] self.upper_spec(q) == old(self).upper_spec(q) || offered(
                            sp,
                            slots,
                            table.view(),
                            q,
                            old(self).upper_spec(q),
                            self.upper_spec(q),
                        ) by {
                            lemma_offer_compose(
                                sp,
                                slots,
                                table.view(),
                                q,
                                old(self).upper_spec(q),
                                before.upper_spec(q),
                                self.upper_spec(q),
                            );
                        }
                        lemma_keeps_trans(old(self).memo_view(), before.memo_view(), self.memo_view());
                        if old(self).lowers_sound() {
                            self.lemma_grow_trans(&before, old(self));
                        }
                        assert(strategy_tree(sp, slots, table.view(), child@) == Err::<Strategy, TreeFault>(f));
                        assert(strategy_forest(sp, slots, table.view(), cv.take(k + 1), len as nat) == Err::<Forest, TreeFault>(f));
                        lemma_forest_prefix_err(sp, slots, table.view(), cv, len as nat, k + 1);
                        assert(strategy_tree(sp, slots, table.view(), c@) == Err::<Strategy, TreeFault>(f));
                    }
                    return Err(f);
                },
                Ok(node) => {
                    proof {
                        assert forall|q: Seq<u16>| #[trigger] self.upper_spec(q) == old(self).upper_spec(q) || offered(
                            sp,
                            slots,
                            table.view(),
                            q,
                            old(self).upper_spec(q),
                            self.upper_spec(q),
                        ) by {
                            lemma_offer_compose(
                                sp,
                                slots,
                                table.view(),
                                q,
                                old(self).upper_spec(q),
                                before.upper_spec(q),
                                self.upper_spec(q),
                            );
                        }
                        let fs = strategy_forest(sp, slots, table.view(), cv.take(k as int), len as nat)->Ok_0;
                        let tc = strategy_tree(sp, slots, table.view(), child@)->Ok_0;
                        assert(strategy_forest(sp, slots, table.view(), cv.take(k + 1), len as nat)->Ok_0.rows
                            == fs.rows.union_prefer_right(tc.rows));
                        assert forall|q: Seq<u16>| #[trigger] fs.rows.union_prefer_right(tc.rows).contains_key(q)
                            implies offered(sp, slots, table.view(), q, old(self).upper_spec(q), self.upper_spec(q)) by {
                            lemma_offer_compose(
                                sp,
                                slots,
                                table.view(),
                                q,
                                old(self).upper_spec(q),
                                before.upper_spec(q),
                                self.upper_spec(q),
                            );
                            if tc.rows.contains_key(q) {
                                assert(offered(sp, slots, table.view(), q, before.upper_spec(q), self.upper_spec(q)));
                            } else {
                                assert(fs.rows.contains_key(q));
                                assert(offered(sp, slots, table.view(), q, old(self).upper_spec(q), before.upper_spec(q)));
                            }
                        }
                        let rows1 = fs.rows.union_prefer_right(tc.rows);
                        assert forall|q: Seq<u16>, x: Seq<u16>| #[trigger] rows1.contains_key(q) && #[trigger] children_spec(
                            sp,
                            slots,
                            q,
                            rows1[q].0 as int,
                        ).contains(x) implies offered(sp, slots, table.view(), x, old(self).upper_spec(x), self.upper_spec(x)) by {
                            lemma_offer_compose(
                                sp,
                                slots,
                                table.view(),
                                x,
                                old(self).upper_spec(x),
                                before.upper_spec(x),
                                self.upper_spec(x),
                            );
                            if tc.rows.contains_key(q) {
                                assert(rows1[q] == tc.rows[q]);
                                assert(offered(sp, slots, table.view(), x, before.upper_spec(x), self.upper_spec(x)));
                            } else {
                                assert(rows1[q] == fs.rows[q]);
                                assert(offered(sp, slots, table.view(), x, old(self).upper_spec(x), before.upper_spec(x)));
                            }
                        }
                        assert forall|j: int| 0 <= j < k + 1 implies offered(
                            sp,
                            slots,
                            table.view(),
                            #[trigger] cv[j],
                            old(self).upper_spec(cv[j]),
                            self.upper_spec(cv[j]),
                        ) by {
                            lemma_offer_compose(
                                sp,
                                slots,
                                table.view(),
                                cv[j],
                                old(self).upper_spec(cv[j]),
                                before.upper_spec(cv[j]),
                                self.upper_spec(cv[j]),
                            );
                            if j == k {
                                assert(offered(sp, slots, table.view(), child@, before.upper_spec(child@), self.upper_spec(child@)));
                            }
                        }
                        lemma_keeps_trans(old(self).memo_view(), before.memo_view(), self.memo_view());
                        if old(self).lowers_sound() {
                            self.lemma_grow_trans(&before, old(self));
                        }
                        let m = child@.len();
                        assert(node.total <= (len - 1) * m) by (nonlinear_arith)
                            requires
                                node.total <= m * m,
                                m <= len - 1,
                        ;
                        lemma_sum_lens_prefix(cv, k + 1);
                        assert(sum_lens(cv.take(k + 1)) == sum_lens(cv.take(k as int)) + m);
                        assert((len - 1) * sum_lens(cv.take(k + 1)) == (len - 1) * sum_lens(cv.take(k as int)) + (len
                            - 1) * m) by (nonlinear_arith)
                            requires
                                sum_lens(cv.take(k + 1)) == sum_lens(cv.take(k as int)) + m,
                        ;
                        assert((len - 1) * sum_lens(cv.take(k + 1)) <= (len - 1) * len) by (nonlinear_arith)
                            requires
                                sum_lens(cv.take(k + 1)) <= len,
                                len >= 1,
                        ;
                        assert((len - 1) * len + len <= 1296 * 1296) by (nonlinear_arith)
                            requires
                                len <= 1296,
                                len >= 1,
                        ;
                    }
                    total = total + node.total;
                    if node.worst + 1 > worst {
                        worst = node.worst + 1;
                    }
                },
            }
            k += 1;
        }
        assert(cv.take(cv.len() as int) =~= cv);
        assert(strategy_forest(sp, slots, table.view(), cv, len as nat) is Ok);
        assert(tree_guess(table.view(), c@) == Some(guess));
        assert(cv == children_spec(sp, slots, c@, guess as int));
        assert(strategy_tree(sp, slots, table.view(), c@) is Ok);
        let node = Node { guess, total, worst };
        proof {
            assert(total <= len * len) by (nonlinear_arith)
                requires
                    total <= len + (len - 1) * sum_lens(cv),
                    sum_lens(cv) <= len,
                    len >= 1,
            ;
        }
        proof {
            lemma_tl_square(len as nat, 1, 1, self.branches());
            assert(len * (1 + len - 1) <= 1296 * 1296) by (nonlinear_arith)
                requires
                    len <= 1296,
            ;
        }
        let ghost before = *self;
        let ghost fs = strategy_forest(sp, slots, table.view(), cv, len as nat)->Ok_0;
        let ghost t = strategy_tree(sp, slots, table.view(), c@)->Ok_0;
        self.save_upper(c, node);
        proof {
            assert(strategy_node(t) == node);
            assert(self.upper_spec(c@) == improved(old(self).upper_spec(c@), node));
            assert forall|q: Seq<u16>| #[trigger] self.upper_spec(q) == old(self).upper_spec(q) || offered(
                sp,
                slots,
                table.view(),
                q,
                old(self).upper_spec(q),
                self.upper_spec(q),
            ) by {
                if q != c@ {
                    assert(self.upper_spec(q) == before.upper_spec(q));
                }
            }
            assert forall|q: Seq<u16>| #[trigger] t.rows.contains_key(q) implies offered(
                sp,
                slots,
                table.view(),
                q,
                old(self).upper_spec(q),
                self.upper_spec(q),
            ) by {
                if q != c@ {
                    assert(fs.rows.contains_key(q));
                    assert(self.upper_spec(q) == before.upper_spec(q));
                }
            }
            assert(offered(sp, slots, table.view(), c@, before.upper_spec(c@), self.upper_spec(c@)));
            assert forall|q: Seq<u16>, x: Seq<u16>| #[trigger] t.rows.contains_key(q) && #[trigger] children_spec(
                sp,
                slots,
                q,
                t.rows[q].0 as int,
            ).contains(x) implies offered(sp, slots, table.view(), x, old(self).upper_spec(x), self.upper_spec(x)) by {
                lemma_offer_compose(
                    sp,
                    slots,
                    table.view(),
                    x,
                    old(self).upper_spec(x),
                    before.upper_spec(x),
                    self.upper_spec(x),
                );
                if x != c@ {
                    assert(self.upper_spec(x) == before.upper_spec(x));
                }
                if q == c@ && len > 1 {
                    assert(t.rows[q].0 == guess);
                    let j = choose|j: int| 0 <= j < cv.len() && cv[j] == x;
                    assert(offered(sp, slots, table.view(), cv[j], old(self).upper_spec(cv[j]), before.upper_spec(cv[j])));
                } else {
                    assert(fs.rows.contains_key(q));
                    assert(t.rows[q] == fs.rows[q]);
                }
            }
            if old(self).states_in_order() && increasing(c@) {
                let e = self.memo_view()[c@];
                assert(self.memo_view() == before.memo_view().insert(c@, e));
                assert forall|q: Seq<u16>| #[trigger] self.memo_view().contains_key(q) implies increasing(q) by {
                    if q != c@ {
                        assert(before.memo_view().contains_key(q));
                    }
                }
            }
            lemma_keeps_trans(old(self).memo_view(), before.memo_view(), self.memo_view());
            if old(self).lowers_sound() {
                self.lemma_grow_trans(&before, old(self));
            }
            if realized0 {
                assert(strategy_tree(sp, slots, table.view(), c@) matches Ok(t) && t.guess == node.guess && t.total
                    <= node.total && t.worst <= node.worst);
                assert(realizes(sp, slots, c@, node));
                let e = self.memo_view()[c@];
                assert(self.memo_view() == before.memo_view().insert(c@, e));
                lemma_realized_insert(sp, slots, before.memo_view(), c@, e);
            }
        }
        Ok(node)
    }
}


/// The guesses of the memoized strategies.
pub open spec fn memo_guesses(m: Map<Seq<u16>, Entry>) -> Map<Seq<u16>, u16> {
    Map::new(|k: Seq<u16>| m.contains_key(k) && m[k].upper is Some, |k: Seq<u16>| m[k].upper->0.guess)
}

/// The character of a decimal digit.
pub open spec fn digit_char(d: nat) -> char {
    if d == 0 {
        '0'
    } else if d == 1 {
        '1'
    } else if d == 2 {
        '2'
    } else if d == 3 {
        '3'
    } else if d == 4 {
        '4'
    } else if d == 5 {
        '5'
    } else if d == 6 {
        '6'
    } else if d == 7 {
        '7'
    } else if d == 8 {
        '8'
    } else {
        '9'
    }
}

/// Decimal notation of `v`, without leading zeros.
pub open spec fn decimal(v: nat) -> Seq<char>
    decreases v,
{
    if v < 10 {
        seq![digit_char(v)]
    } else {
        decimal(v / 10).push(digit_char(v % 10))
    }
}

/// Ids in decimal, separated by commas.
pub open spec fn ids_text(ids: Seq<u16>) -> Seq<char>
    decreases ids.len(),
{
    if ids.len() == 0 {
        Seq::empty()
    } else if ids.len() == 1 {
        decimal(ids[0] as nat)
    } else {
        ids_text(ids.drop_last()) + seq![','] + decimal(ids.last() as nat)
    }
}

/// One policy line: `ids;guess;worst`.
pub open spec fn row_text(ids: Seq<u16>, guess: u16, worst: nat) -> Seq<char> {
    ids_text(ids) + seq![';'] + decimal(guess as nat) + seq![';'] + decimal(worst)
}

/// The lines of the rows with keys `keys`, in that order, each ended by a
/// line feed.
pub open spec fn rows_text(keys: Seq<Seq<u16>>, rows: Map<Seq<u16>, (u16, nat)>) -> Seq<char>
    decreases keys.len(),
{
    if keys.len() == 0 {
        Seq::empty()
    } else {
        rows_text(keys.drop_last(), rows) + row_text(keys.last(), rows[keys.last()].0, rows[keys.last()].1) + seq![
            '\n',
        ]
    }
}

/// A policy text: its rows' lines, or a single line feed when there are none.
pub open spec fn policy_text(keys: Seq<Seq<u16>>, rows: Map<Seq<u16>, (u16, nat)>) -> Seq<char> {
    if keys.len() == 0 {
        seq!['\n']
    } else {
        rows_text(keys, rows)
    }
}

/// The keys `keys` are in strictly increasing lexicographic order.
pub open spec fn lex_sorted(keys: Seq<Seq<u16>>) -> bool {
    forall|i: int, j: int| 0 <= i < j < keys.len() ==> lex_lt(#[trigger] keys[i], #[trigger] keys[j])
}

/// Rows held with `usize` step counts say the same as rows with natural ones.
pub open spec fn rows_agree(held: Map<Seq<u16>, (u16, usize)>, rows: Map<Seq<u16>, (u16, nat)>) -> bool {
    &&& forall|k: Seq<u16>| #[trigger] held.contains_key(k) <==> rows.contains_key(k)
    &&& forall|k: Seq<u16>| #[trigger] held.contains_key(k) ==> held[k].0 == rows[k].0 && held[k].1 as nat == rows[k].1
}

/// Appends one decimal digit.
fn push_digit(s: &mut String, d: u64)
    requires
        d < 10,
    ensures
        final(s)@ == old(s)@.push(digit_char(d as nat)),
{
    let lit = if d == 0 {
        proof {
            reveal_strlit("0");
        }
        "0"
    } else if d == 1 {
        proof {
            reveal_strlit("1");
        }
        "1"
    } else if d == 2 {
        proof {
            reveal_strlit("2");
        }
        "2"
    } else if d == 3 {
        proof {
            reveal_strlit("3");
        }
        "3"
    } else if d == 4 {
        proof {
            reveal_strlit("4");
        }
        "4"
    } else if d == 5 {
        proof {
            reveal_strlit("5");
        }
        "5"
    } else if d == 6 {
        proof {
            reveal_strlit("6");
        }
        "6"
    } else if d == 7 {
        proof {
            reveal_strlit("7");
        }
        "7"
    } else if d == 8 {
        proof {
            reveal_strlit("8");
        }
        "8"
    } else {
        proof {
            reveal_strlit("9");
        }
        "9"
    };
    assert(lit@ =~= seq![digit_char(d as nat)]);
    s.append(lit);
    assert(s@ =~= old(s)@.push(digit_char(d as nat)));
}

/// Appends `v` in decimal.
fn push_decimal(s: &mut String, v: u64)
    ensures
        final(s)@ == old(s)@ + decimal(v as nat),
    decreases v,
{
    if v >= 10 {
        push_decimal(s, v / 10);
    }
    push_digit(s, v % 10);
    assert(s@ =~= old(s)@ + decimal(v as nat));
}

/// Appends one ASCII character given as a one-character literal.
fn push_text(s: &mut String, lit: &str)
    ensures
        final(s)@ == old(s)@ + lit@,
{
    s.append(lit);
}

/// Appends the line of a policy row, without its line feed.
fn push_row(s: &mut String, ids: &Vec<u16>, guess: u16, worst: usize)
    ensures
        final(s)@ == old(s)@ + row_text(ids@, guess, worst as nat),
{
    let mut j: usize = 0;
    while j < ids.len()
        invariant
            j <= ids@.len(),
            s@ =~= old(s)@ + ids_text(ids@.take(j as int)),
        decreases ids@.len() - j,
    {
        assert(ids@.take(j + 1).drop_last() =~= ids@.take(j as int));
        if j > 0 {
            proof {
                reveal_strlit(",");
            }
            push_text(s, ",");
        }
        push_decimal(s, ids[j] as u64);
        assert(ids@.take(j + 1).last() == ids@[j as int]);
        j += 1;
    }
    assert(ids@.take(ids@.len() as int) =~= ids@);
    proof {
        reveal_strlit(";");
    }
    push_text(s, ";");
    push_decimal(s, guess as u64);
    push_text(s, ";");
    push_decimal(s, worst as u64);
}

impl Optimizer {
    /// What exporting the memoized strategies gives: the strategy they
    /// describe from the full space, or why there is none.
    pub open spec fn export_outcome(&self) -> Result<Strategy, SearchError> {
        match strategy_tree(self.space_view(), self.rules().slots as nat, memo_guesses(self.memo_view()), all_ids(self.size())) {
            Err(TreeFault::Missing) => Err(SearchError::MissingStrategy),
            Err(TreeFault::NoProgress) => Err(SearchError::NoProgress),
            Ok(t) => Ok(t),
        }
    }

    /// Follows the memoized strategies from `c`, adding the row of every
    /// state visited that has two or more candidates.
    fn export_visit(&self, c: &[u16], rows: &mut KeyMap<(u16, usize)>) -> (r: Result<Node, TreeFault>)
        requires
            self.wf(),
            old(rows).wf(),
            1 <= c@.len() <= self.size(),
            ids_below(c@, self.size()),
        ensures
            final(rows).wf(),
            r matches Ok(node) ==> strategy_tree(self.space_view(), self.rules().slots as nat, memo_guesses(self.memo_view()), c@)
                matches Ok(t) && t.guess == node.guess && t.total == node.total && t.worst == node.worst
                && node.total <= c@.len() * c@.len() && 1 <= node.worst <= c@.len()
                && rows_agree(final(rows).view(), rows_of(old(rows).view()).union_prefer_right(t.rows)),
            r matches Err(f) ==> strategy_tree(self.space_view(), self.rules().slots as nat, memo_guesses(self.memo_view()), c@)
                == Err::<Strategy, TreeFault>(f),
        decreases c@.len(),
    {
        let ghost n0 = self.size();
        let ghost sp = self.space_view();
        let ghost slots = self.rules().slots as nat;
        let ghost gs = memo_guesses(self.memo_view());
        let len = c.len();
        let guess = if len == 1 {
            c[0]
        } else {
            match self.memo.get(c) {
                Some(e) => match e.upper {
                    Some(node) => node.guess,
                    None => {
                        return Err(TreeFault::Missing);
                    },
                },
                None => {
                    return Err(TreeFault::Missing);
                },
            }
        };
        assert(tree_guess(gs, c@) == Some(guess));
        let children = self.children(c, guess);
        let ghost cv = children.deep_view();
        proof {
            lemma_children_subset(sp, slots, c@, guess as int);
        }
        let mut total: usize = len;
        let mut worst: usize = 1;
        let mut k: usize = 0;
        while k < children.len()
            invariant
                self.wf(),
                rows.wf(),
                n0 == self.size(),
                n0 <= 1296,
                sp == self.space_view(),
                slots == self.rules().slots,
                gs == memo_guesses(self.memo_view()),
                len == c@.len(),
                1 <= len <= n0,
                ids_below(c@, n0),
                cv == children.deep_view(),
                cv == children_spec(sp, slots, c@, guess as int),
                tree_guess(gs, c@) == Some(guess),
                sum_lens(cv) <= len,
                forall|x: Seq<u16>| #[trigger] cv.contains(x) ==> x.len() > 0 && x.len() <= c@.len() && forall|i: int|
                    0 <= i < x.len() ==> c@.contains(#[trigger] x[i]),
                k <= cv.len(),
                strategy_forest(sp, slots, gs, cv.take(k as int), len as nat) matches Ok(fs) && fs.total + len == total
                    && fs.worst == worst && rows_agree(rows.view(), rows_of(old(rows).view()).union_prefer_right(fs.rows)),
                total <= len + (len - 1) * sum_lens(cv.take(k as int)),
                1 <= worst <= len,
            decreases cv.len() - k,
        {
            let child = &children[k];
            assert(cv[k as int] == child@);
            assert(cv.contains(child@));
            assert(cv.take(k + 1).drop_last() =~= cv.take(k as int));
            assert(cv.take(k + 1).last() == child@);
            if child.len() == len {
                proof {
                    assert(strategy_forest(sp, slots, gs, cv.take(k + 1), len as nat) is Err);
                    lemma_forest_prefix_err(sp, slots, gs, cv, len as nat, k + 1);
                    assert(strategy_tree(sp, slots, gs, c@) == Err::<Strategy, TreeFault>(TreeFault::NoProgress));
                }
                return Err(TreeFault::NoProgress);
            }
            proof {
                assert forall|i: int| 0 <= i < child@.len() implies (#[trigger] child@[i] as nat) < n0 by {
                    assert(c@.contains(child@[i]));
                    let q = choose|q: int| 0 <= q < c@.len() && c@[q] == child@[i];
                    assert((c@[q] as nat) < n0);
                }
            }
            let ghost rows_before = rows.view();
            match self.export_visit(child.as_slice(), rows) {
                Err(f) => {
                    proof {
                        assert(strategy_forest(sp, slots, gs, cv.take(k + 1), len as nat) == Err::<Forest, TreeFault>(f));
                        lemma_forest_prefix_err(sp, slots, gs, cv, len as nat, k + 1);
                        assert(strategy_tree(sp, slots, gs, c@) == Err::<Strategy, TreeFault>(f));
                    }
                    return Err(f);
                },
                Ok(node) => {
                    proof {
                        let m = child@.len();
                        assert(node.total <= (len - 1) * m) by (nonlinear_arith)
                            requires
                                node.total <= m * m,
                                m <= len - 1,
                        ;
                        lemma_sum_lens_prefix(cv, k + 1);
                        assert(sum_lens(cv.take(k + 1)) == sum_lens(cv.take(k as int)) + m);
                        assert((len - 1) * sum_lens(cv.take(k + 1)) == (len - 1) * sum_lens(cv.take(k as int)) + (len
                            - 1) * m) by (nonlinear_arith)
                            requires
                                sum_lens(cv.take(k + 1)) == sum_lens(cv.take(k as int)) + m,
                        ;
                        assert((len - 1) * sum_lens(cv.take(k + 1)) <= (len - 1) * len) by (nonlinear_arith)
                            requires
                                sum_lens(cv.take(k + 1)) <= len,
                                len >= 1,
                        ;
                        assert((len - 1) * len + len <= 1296 * 1296) by (nonlinear_arith)
                            requires
                                len <= 1296,
                                len >= 1,
                        ;
                        let fs = strategy_forest(sp, slots, gs, cv.take(k as int), len as nat)->Ok_0;
                        let t = strategy_tree(sp, slots, gs, child@)->Ok_0;
                        assert(rows_of(old(rows).view()).union_prefer_right(fs.rows).union_prefer_right(t.rows) =~= rows_of(
                            old(rows).view(),
                        ).union_prefer_right(fs.rows.union_prefer_right(t.rows)));
                        lemma_rows_agree_union(rows_before, rows_of(old(rows).view()).union_prefer_right(fs.rows), rows.view(), t.rows);
                    }
                    total = total + node.total;
                    if node.worst + 1 > worst {
                        worst = node.worst + 1;
                    }
                },
            }
            k += 1;
        }
        assert(cv.take(cv.len() as int) =~= cv);
        assert(strategy_forest(sp, slots, gs, cv, len as nat) is Ok);
        assert(strategy_tree(sp, slots, gs, c@) is Ok);
        proof {
            assert(total <= len * len) by (nonlinear_arith)
                requires
                    total <= len + (len - 1) * sum_lens(cv),
                    sum_lens(cv) <= len,
                    len >= 1,
            ;
        }
        if len > 1 {
            let ghost rows_before = rows.view();
            rows.insert(slice_to_vec(c), (guess, worst));
            proof {
                let fs = strategy_forest(sp, slots, gs, cv, len as nat)->Ok_0;
                assert(rows_of(old(rows).view()).union_prefer_right(fs.rows.insert(c@, (guess, worst as nat))) =~= rows_of(
                    old(rows).view(),
                ).union_prefer_right(fs.rows).insert(c@, (guess, worst as nat)));
            }
        }
        Ok(Node { guess, total, worst })
    }
}

impl Optimizer {
    /// Writes the memoized strategies from the full space as a policy text:
    /// one line `ids;guess;worst` for every state visited that has two or
    /// more candidates, in increasing order of its ids, each ended by a line
    /// feed. Also returns the strategy's first guess, total and largest
    /// number of submissions.
    pub fn export_policy(&self) -> (r: Result<(String, Node), String>)
        requires
            self.wf(),
        ensures
            r is Ok <==> self.export_outcome() is Ok,
            r matches Ok((text, node)) ==> self.export_outcome() matches Ok(t) && node == strategy_node(t)
                && exists|ks: Seq<Seq<u16>>| lex_sorted(ks) && (forall|k: Seq<u16>| #[trigger] ks.contains(k)
                <==> t.rows.contains_key(k)) && text@ == policy_text(ks, t.rows),
            r matches Err(msg) ==> msg@ == search_error_text(self.export_outcome()->Err_0),
    {
        let mut rows: KeyMap<(u16, usize)> = KeyMap::new();
        let root = self.root();
        assert(root@ == all_ids(self.size()));
        let ghost gs = memo_guesses(self.memo_view());
        let ghost sp = self.space_view();
        let ghost slots = self.rules().slots as nat;
        match self.export_visit(root.as_slice(), &mut rows) {
            Err(f) => {
                let e = match f {
                    TreeFault::Missing => SearchError::MissingStrategy,
                    TreeFault::NoProgress => SearchError::NoProgress,
                };
                Err(String::from_str(e.message()))
            },
            Ok(node) => {
                let ghost t = strategy_tree(sp, slots, gs, root@)->Ok_0;
                proof {
                    assert(rows_of(Map::<Seq<u16>, (u16, usize)>::empty()) =~= Map::<Seq<u16>, (u16, nat)>::empty());
                    assert(Map::<Seq<u16>, (u16, nat)>::empty().union_prefer_right(t.rows) =~= t.rows);
                    rows.lemma_entries();
                }
                let ghost ks = rows.key_seq();
                let mut text = String::new();
                let count = rows.len();
                let mut i: usize = 0;
                while i < count
                    invariant
                        rows.wf(),
                        count == rows.key_seq().len(),
                        ks == rows.key_seq(),
                        rows_agree(rows.view(), t.rows),
                        forall|q: int| 0 <= q < ks.len() ==> rows.view().contains_key(#[trigger] ks[q]) && rows.view()[ks[q]]
                            == rows.value_seq()[q],
                        i <= count,
                        text@ == rows_text(ks.take(i as int), t.rows),
                    decreases count - i,
                {
                    let key = rows.key_at(i);
                    let v = rows.value_at(i);
                    assert(ks.take(i + 1).drop_last() =~= ks.take(i as int));
                    assert(ks.take(i + 1).last() == ks[i as int]);
                    assert(rows.view().contains_key(ks[i as int]));
                    push_row(&mut text, key, v.0, v.1);
                    proof {
                        reveal_strlit("\n");
                    }
                    push_text(&mut text, "\n");
                    assert(text@ =~= rows_text(ks.take(i + 1), t.rows));
                    i += 1;
                }
                assert(ks.take(count as int) =~= ks);
                if count == 0 {
                    proof {
                        reveal_strlit("\n");
                    }
                    push_text(&mut text, "\n");
                    assert(text@ =~= seq!['\n']);
                }
                proof {
                    assert forall|k: Seq<u16>| #[trigger] ks.contains(k) <==> t.rows.contains_key(k) by {
                        if ks.contains(k) {
                            let q = choose|q: int| 0 <= q < ks.len() && ks[q] == k;
                            assert(rows.view().contains_key(ks[q]));
                        }
                        if t.rows.contains_key(k) {
                            assert(rows.view().contains_key(k));
                        }
                    }
                    assert(lex_sorted(ks));
                    assert(text@ == policy_text(ks, t.rows));
                }
                Ok((text, node))
            },
        }
    }
}

/// Every row of a followed strategy is a state of two or more candidates
/// that `gs` gives a guess for, no larger than where the strategy starts,
/// and holds that guess.
pub proof fn lemma_tree_rows(sp: Seq<Seq<u8>>, slots: nat, gs: Map<Seq<u16>, u16>, c: Seq<u16>)
    requires
        strategy_tree(sp, slots, gs, c) is Ok,
    ensures
        forall|k: Seq<u16>| #[trigger] strategy_tree(sp, slots, gs, c)->Ok_0.rows.contains_key(k) ==> gs.contains_key(k) && 1
            < k.len() <= c.len() && strategy_tree(sp, slots, gs, c)->Ok_0.rows[k].0 == gs[k],
        c.len() > 1 ==> strategy_tree(sp, slots, gs, c)->Ok_0.rows.contains_key(c),
    decreases c.len(), 1nat, 0nat,
{
    let g = tree_guess(gs, c)->0;
    let chs = children_spec(sp, slots, c, g as int);
    lemma_forest_rows(sp, slots, gs, chs, c.len());
}

pub proof fn lemma_forest_rows(sp: Seq<Seq<u8>>, slots: nat, gs: Map<Seq<u16>, u16>, chs: Seq<Seq<u16>>, bound: nat)
    requires
        strategy_forest(sp, slots, gs, chs, bound) is Ok,
    ensures
        forall|k: Seq<u16>| #[trigger] strategy_forest(sp, slots, gs, chs, bound)->Ok_0.rows.contains_key(k) ==> gs.contains_key(k)
            && 1 < k.len() < bound && strategy_forest(sp, slots, gs, chs, bound)->Ok_0.rows[k].0 == gs[k],
    decreases bound, 0nat, chs.len(),
{
    if chs.len() > 0 {
        lemma_forest_rows(sp, slots, gs, chs.drop_last(), bound);
        lemma_tree_rows(sp, slots, gs, chs.last());
    }
}

/// Guesses that agree with `gs` on every state a followed strategy visits
/// give the same strategy.
pub proof fn lemma_tree_agrees(sp: Seq<Seq<u8>>, slots: nat, gs: Map<Seq<u16>, u16>, table: Map<Seq<u16>, u16>, c: Seq<u16>)
    requires
        c.len() >= 1,
        strategy_tree(sp, slots, gs, c) is Ok,
        forall|k: Seq<u16>| #[trigger] strategy_tree(sp, slots, gs, c)->Ok_0.rows.contains_key(k) ==> table.contains_key(k)
            && table[k] == gs[k],
    ensures
        strategy_tree(sp, slots, table, c) == strategy_tree(sp, slots, gs, c),
    decreases c.len(), 1nat, 0nat,
{
    lemma_tree_rows(sp, slots, gs, c);
    let t = strategy_tree(sp, slots, gs, c)->Ok_0;
    let g = tree_guess(gs, c)->0;
    if c.len() > 1 {
        assert(t.rows.contains_key(c));
    }
    assert(tree_guess(table, c) == tree_guess(gs, c));
    let chs = children_spec(sp, slots, c, g as int);
    lemma_children_subset(sp, slots, c, g as int);
    assert forall|i: int| 0 <= i < chs.len() implies (#[trigger] chs[i]).len() >= 1 by {
        assert(chs.contains(chs[i]));
    }
    let fs = strategy_forest(sp, slots, gs, chs, c.len())->Ok_0;
    assert forall|k: Seq<u16>| #[trigger] fs.rows.contains_key(k) implies table.contains_key(k) && table[k] == gs[k] by {
        assert(t.rows.contains_key(k));
    }
    lemma_forest_agrees(sp, slots, gs, table, chs, c.len());
}

pub proof fn lemma_forest_agrees(
    sp: Seq<Seq<u8>>,
    slots: nat,
    gs: Map<Seq<u16>, u16>,
    table: Map<Seq<u16>, u16>,
    chs: Seq<Seq<u16>>,
    bound: nat,
)
    requires
        forall|i: int| 0 <= i < chs.len() ==> (#[trigger] chs[i]).len() >= 1,
        strategy_forest(sp, slots, gs, chs, bound) is Ok,
        forall|k: Seq<u16>| #[trigger] strategy_forest(sp, slots, gs, chs, bound)->Ok_0.rows.contains_key(k) ==> table.contains_key(
            k,
        ) && table[k] == gs[k],
    ensures
        strategy_forest(sp, slots, table, chs, bound) == strategy_forest(sp, slots, gs, chs, bound),
    decreases bound, 0nat, chs.len(),
{
    if chs.len() > 0 {
        let fs = strategy_forest(sp, slots, gs, chs, bound)->Ok_0;
        let prev = strategy_forest(sp, slots, gs, chs.drop_last(), bound)->Ok_0;
        let last = strategy_tree(sp, slots, gs, chs.last())->Ok_0;
        assert forall|k: Seq<u16>| #[trigger] prev.rows.contains_key(k) implies table.contains_key(k) && table[k] == gs[k] by {
            assert(fs.rows.contains_key(k));
        }
        assert forall|i: int| 0 <= i < chs.drop_last().len() implies (#[trigger] chs.drop_last()[i]).len() >= 1 by {
            assert(chs.drop_last()[i] == chs[i]);
        }
        lemma_forest_agrees(sp, slots, gs, table, chs.drop_last(), bound);
        assert(chs.last() == chs[chs.len() - 1]);
        if chs.last().len() < bound {
            assert forall|k: Seq<u16>| #[trigger] last.rows.contains_key(k) implies table.contains_key(k) && table[k] == gs[k] by {
                assert(fs.rows.contains_key(k));
            }
            lemma_tree_agrees(sp, slots, gs, table, chs.last());
        }
    }
}

/// Some entry of `states` holds the key `k`.
spec fn listed(states: Seq<Vec<u16>>, k: Seq<u16>) -> bool {
    exists|j: int| 0 <= j < states.len() && #[trigger] states[j]@ == k
}

/// Appending to `states` keeps every key it held, and lists the new one.
proof fn lemma_listed_push(states: Seq<Vec<u16>>, x: Vec<u16>)
    ensures
        listed(states.push(x), x@),
        forall|k: Seq<u16>| #[trigger] listed(states, k) ==> listed(states.push(x), k),
{
    assert(states.push(x)[states.len() as int] == x);
    assert forall|k: Seq<u16>| #[trigger] listed(states, k) implies listed(states.push(x), k) by {
        let j = choose|j: int| 0 <= j < states.len() && #[trigger] states[j]@ == k;
        assert(states.push(x)[j] == states[j]);
    }
}

impl Optimizer {
    /// `k` has a strategy in `self`; when the bounds of `base` are sound and
    /// `k` is a proper set, no strategy for `k` costs less in total.
    closed spec fn settled(&self, base: &Self, k: Seq<u16>) -> bool {
        &&& self.upper_spec(k) is Some
        &&& self.lower_spec(k) >= self.upper_spec(k)->0.total
        &&& base.lowers_sound() && base.proper_set(k) ==> sound_lower(
            base.space_view(),
            base.rules().slots as nat,
            k,
            self.upper_spec(k)->0.total as nat,
        )
    }

    /// Optimizes the states of the current strategy first, smallest first
    /// (states of 3 to 64 candidates, by size and then by ids), each below
    /// its current cost, so that a good strategy is at hand before wholly
    /// different first guesses are explored. No guess is excluded. When it
    /// completes with sound bounds, the strategy of each such state that is
    /// a proper set is optimal.
    pub fn refine_incumbent(&mut self) -> (r: Result<(), Interrupted>)
        requires
            old(self).wf(),
            old(self).export_outcome() is Ok,
        ensures
            final(self).wf(),
            final(self).same_rules(old(self)),
            keeps_strategies(old(self).memo_view(), final(self).memo_view()),
            r is Err ==> old(self).has_deadline(),
            old(self).strategies_realized() ==> final(self).strategies_realized(),
            old(self).lowers_sound() ==> final(self).lowers_sound(),
            old(self).states_in_order() ==> final(self).states_in_order(),
            final(self).rules() == old(self).rules(),
            final(self).space_view() == old(self).space_view(),
            final(self).size() == old(self).size(),
            r is Ok ==> forall|k: Seq<u16>|
                #[trigger] old(self).export_outcome()->Ok_0.rows.contains_key(k) && 2 < k.len() <= 64
                    ==> final(self).upper_spec(k) is Some && final(self).lower_spec(k) >= final(self).upper_spec(k)->0.total
                    && (old(self).lowers_sound() && old(self).strategies_realized() && old(self).proper_set(k)
                    ==> final(self).lower_spec(k) == final(self).upper_spec(k)->0.total)
                    && (old(self).lowers_sound() && old(self).proper_set(k) ==> sound_lower(
                    old(self).space_view(),
                    old(self).rules().slots as nat,
                    k,
                    final(self).upper_spec(k)->0.total as nat,
                )),
    {
        let mut rows: KeyMap<(u16, usize)> = KeyMap::new();
        let root = self.root();
        let ghost gs = memo_guesses(self.memo_view());
        let ghost sp = self.space_view();
        let ghost slots = self.rules().slots as nat;
        let ghost n0 = self.size();
        assert(root@ == all_ids(n0));
        let visited = self.export_visit(root.as_slice(), &mut rows);
        let ghost t = strategy_tree(sp, slots, gs, root@)->Ok_0;
        proof {
            lemma_tree_rows(sp, slots, gs, root@);
            assert(rows_of(Map::<Seq<u16>, (u16, usize)>::empty()) =~= Map::<Seq<u16>, (u16, nat)>::empty());
            assert(Map::<Seq<u16>, (u16, nat)>::empty().union_prefer_right(t.rows) =~= t.rows);
            rows.lemma_entries();
            assert(t == old(self).export_outcome()->Ok_0);
            crate::symmetry::lemma_tree_rows_increasing(sp, slots, gs, root@);
        }
        let count = rows.len();
        let mut states: Vec<Vec<u16>> = Vec::new();
        let mut size: usize = 3;
        while size <= 64
            invariant
                self.wf(),
                *self == *old(self),
                rows.wf(),
                count == rows.key_seq().len(),
                rows_agree(rows.view(), t.rows),
                forall|q: int| 0 <= q < rows.key_seq().len() ==> rows.view().contains_key(#[trigger] rows.key_seq()[q]),
                forall|k: Seq<u16>| #[trigger] rows.view().contains_key(k) ==> rows.key_seq().contains(k),
                forall|k: Seq<u16>| #[trigger] t.rows.contains_key(k) ==> gs.contains_key(k) && 1 < k.len() <= n0,
                gs == memo_guesses(self.memo_view()),
                n0 == self.size(),
                3 <= size <= 65,
                forall|j: int| 0 <= j < states@.len() ==> gs.contains_key(#[trigger] states@[j]@) && 2 < states@[j]@.len()
                    <= n0 && increasing(states@[j]@),
                forall|k: Seq<u16>| #[trigger] t.rows.contains_key(k) ==> increasing(k),
                forall|k: Seq<u16>| #[trigger] t.rows.contains_key(k) && 2 < k.len() < size ==> listed(states@, k),
            decreases 65 - size,
        {
            let mut i: usize = 0;
            while i < count
                invariant
                    rows.wf(),
                    count == rows.key_seq().len(),
                    rows_agree(rows.view(), t.rows),
                    forall|q: int| 0 <= q < rows.key_seq().len() ==> rows.view().contains_key(#[trigger] rows.key_seq()[q]),
                    forall|k: Seq<u16>| #[trigger] t.rows.contains_key(k) ==> gs.contains_key(k) && 1 < k.len() <= n0,
                    i <= count,
                    3 <= size <= 64,
                    forall|j: int| 0 <= j < states@.len() ==> gs.contains_key(#[trigger] states@[j]@) && 2 < states@[j]@.len()
                        <= n0 && increasing(states@[j]@),
                    forall|k: Seq<u16>| #[trigger] t.rows.contains_key(k) ==> increasing(k),
                    forall|k: Seq<u16>| #[trigger] t.rows.contains_key(k) && 2 < k.len() < size ==> listed(states@, k),
                    forall|q: int| 0 <= q < i && #[trigger] rows.key_seq()[q].len() == size ==> listed(states@, rows.key_seq()[q]),
                decreases count - i,
            {
                let key = rows.key_at(i);
                if key.len() == size {
                    assert(rows.view().contains_key(rows.key_seq()[i as int]));
                    assert(t.rows.contains_key(key@));
                    let ghost before = states@;
                    let x = slice_to_vec(key.as_slice());
                    proof {
                        lemma_listed_push(before, x);
                    }
                    states.push(x);
                    assert forall|j: int| 0 <= j < states@.len() implies gs.contains_key(#[trigger] states@[j]@) && 2 < states@[j]@.len()
                        <= n0 && increasing(states@[j]@) by {
                        if j < before.len() {
                            assert(states@[j] == before[j]);
                        }
                    }
                }
                i += 1;
            }
            proof {
                assert forall|k: Seq<u16>| #[trigger] t.rows.contains_key(k) && 2 < k.len() < size + 1 implies listed(states@, k) by {
                    if k.len() == size {
                        assert(rows.view().contains_key(k));
                        assert(rows.key_seq().contains(k));
                        let q = choose|q: int| 0 <= q < rows.key_seq().len() && rows.key_seq()[q] == k;
                        assert(rows.key_seq()[q].len() == size);
                    }
                }
            }
            size += 1;
        }
        let mut j: usize = 0;
        while j < states.len()
            invariant
                self.wf(),
                self.same_rules(old(self)),
                keeps_strategies(old(self).memo_view(), self.memo_view()),
                gs == memo_guesses(old(self).memo_view()),
                n0 == self.size(),
                j <= states@.len(),
                old(self).strategies_realized() ==> self.strategies_realized(),
                old(self).lowers_sound() ==> self.lowers_sound(),
                forall|q: int| 0 <= q < states@.len() ==> gs.contains_key(#[trigger] states@[q]@) && 2 < states@[q]@.len() <= n0
                    && increasing(states@[q]@),
                old(self).states_in_order() ==> self.states_in_order(),
                forall|q: int| 0 <= q < j ==> self.settled(old(self), #[trigger] states@[q]@),
            decreases states@.len() - j,
        {
            let c = &states[j];
            assert(gs.contains_key(states@[j as int]@));
            assert(old(self).memo_view().contains_key(c@));
            assert(self.memo_view().contains_key(c@));
            let entry = self.memo.get(c.as_slice()).unwrap();
            let upper = entry.upper.unwrap();
            let ghost before = *self;
            match self.solve(c.as_slice(), upper.total + 1) {
                Err(e) => {
                    proof {
                        lemma_keeps_trans(old(self).memo_view(), before.memo_view(), self.memo_view());
                    }
                    return Err(e);
                },
                Ok(res) => {
                    proof {
                        lemma_keeps_trans(old(self).memo_view(), before.memo_view(), self.memo_view());
                        let sp1 = old(self).space_view();
                        let sl1 = old(self).rules().slots as nat;
                        assert(before.space_view() == sp1 && before.rules() == old(self).rules());
                        assert(before.proper_set(c@) == old(self).proper_set(c@));
                        assert forall|q: int| 0 <= q < j + 1 implies self.settled(old(self), #[trigger] states@[q]@) by {
                            let k = states@[q]@;
                            assert(before.memo_view().contains_key(k)) by {
                                assert(gs.contains_key(k));
                            }
                            if q < j {
                                assert(before.settled(old(self), k));
                                if old(self).lowers_sound() && old(self).proper_set(k) {
                                    lemma_sound_lower_weaken(
                                        sp1,
                                        sl1,
                                        k,
                                        before.upper_spec(k)->0.total as nat,
                                        self.upper_spec(k)->0.total as nat,
                                    );
                                }
                            } else {
                                assert(k == c@);
                                if old(self).lowers_sound() && old(self).proper_set(k) {
                                    match res {
                                        Some(_) => {},
                                        None => {
                                            lemma_sound_lower_weaken(
                                                sp1,
                                                sl1,
                                                k,
                                                (upper.total + 1) as nat,
                                                self.upper_spec(k)->0.total as nat,
                                            );
                                        },
                                    }
                                }
                            }
                        }
                    }
                },
            }
            j += 1;
        }
        proof {
            assert forall|k: Seq<u16>| #[trigger] t.rows.contains_key(k) && 2 < k.len() <= 64 implies self.settled(old(self), k) by {
                assert(listed(states@, k));
                let q = choose|q: int| 0 <= q < states@.len() && #[trigger] states@[q]@ == k;
                assert(self.settled(old(self), k));
                if old(self).lowers_sound() && old(self).strategies_realized() && old(self).proper_set(k) {
                    assert(self.proper_set(k));
                    self.lemma_bound_below_strategy(k);
                }
            }
        }
        Ok(())
    }
}

impl Optimizer {
    /// The checkpoint of the memoized bounds: the rules, then every memoized
    /// state in increasing order of its ids (the layout of `checkpoint_spec`).
    pub fn checkpoint_bytes(&self) -> (bytes: Vec<u8>)
        requires
            self.wf(),
        ensures
            exists|ks: Seq<Seq<u16>>| lex_sorted(ks) && (forall|k: Seq<u16>| #[trigger] ks.contains(k)
                <==> self.memo_view().contains_key(k)) && bytes@ == checkpoint_spec(
                self.rules().colors as u8,
                self.rules().slots as u8,
                ks,
                self.memo_view(),
            ),
    {
        encode_checkpoint(self.settings.colors as u8, self.settings.slots as u8, &self.memo)
    }

    /// Replaces the memoized bounds with those of the checkpoint `bytes`,
    /// after checking its tag, checksum, rules and every entry; a refused
    /// checkpoint leaves the state as it was. The one-ply bounds are
    /// forgotten.
    pub fn load_checkpoint_bytes(&mut self, bytes: &[u8]) -> (r: Result<(), String>)
        requires
            old(self).wf(),
        ensures
            final(self).wf(),
            final(self).same_rules(old(self)),
            r is Ok <==> old(self).checkpoint_outcome(bytes@) is Ok,
            old(self).checkpoint_outcome(bytes@) matches Ok(m) ==> final(self).memo_view() == m
                && final(self).tightened_view() == Set::<Seq<u16>>::empty(),
            r matches Err(msg) ==> msg@ == checkpoint_error_text(old(self).checkpoint_outcome(bytes@)->Err_0)
                && final(self).memo_view() == old(self).memo_view() && final(self).tightened_view() == old(
                self,
            ).tightened_view(),
            final(self).rules() == old(self).rules(),
            final(self).space_view() == old(self).space_view(),
            final(self).size() == old(self).size(),
            r is Ok ==> final(self).states_in_order(),
    {
        let n = self.space.len();
        let mut floor: Vec<usize> = Vec::new();
        let mut l: usize = 0;
        while l <= n
            invariant
                self.wf(),
                n == self.size(),
                n <= 1296,
                l <= n + 1,
                floor@.len() == l,
                forall|q: int| 0 <= q < l ==> #[trigger] floor@[q] == theoretical_lower_spec(q as nat, self.branches()),
            decreases n + 1 - l,
        {
            assert(l * (l + 1) <= 1297 * 1298) by (nonlinear_arith)
                requires
                    l <= 1297,
            ;
            floor.push(self.theoretical_lower_bounded(l));
            l += 1;
        }
        match decode_checkpoint(
            bytes,
            self.settings.colors as u8,
            self.settings.slots as u8,
            n,
            &floor,
            Ghost(self.branches()),
        ) {
            Err(e) => Err(String::from_str(e.message())),
            Ok(memo) => {
                proof {
                    let data = bytes@.take(bytes@.len() - 8);
                    let count = (crate::checkpoint::field(data, 10, 8) as usize) as nat;
                    lemma_parse_entries_valid(data, 18, count, n as nat, self.branches(), Map::empty());
                    crate::checkpoint::lemma_parse_entries_floored(data, 18, count, n as nat, self.branches(), Map::empty());
                    crate::checkpoint::lemma_parse_entries_ordered(data, 18, count, n as nat, self.branches(), Map::empty());
                }
                self.memo = memo;
                self.tightened = KeyMap::new();
                proof {
                    assert forall|k: Seq<u16>| #[trigger] self.memo_view().contains_key(k) implies increasing(k) by {
                        crate::symmetry::lemma_adjacent_increasing(k);
                    }
                }
                Ok(())
            },
        }
    }

    /// What loading the checkpoint with bytes `bytes` gives.
    pub open spec fn checkpoint_outcome(&self, bytes: Seq<u8>) -> Result<Map<Seq<u16>, Entry>, CheckpointError> {
        decode_spec(bytes, self.rules().colors as u8, self.rules().slots as u8, self.size(), self.branches())
    }
}

/// The policy text that `export_policy` writes, read by `seed_policy` on an
/// optimizer for the same game, describes exactly the exported strategy:
/// the same first guess, total, worst case and rows; so seeding a fresh
/// optimizer with it stores the exported node for the full space and the
/// exported strategy for every row. (A game of a single code is left out:
/// its export is an empty line, which seeding refuses.)
pub proof fn lemma_export_then_seed(exporter: &Optimizer, seeded: &Optimizer, ks: Seq<Seq<u16>>)
    requires
        exporter.wf(),
        seeded.wf(),
        seeded.space_view() == exporter.space_view(),
        seeded.rules() == exporter.rules(),
        exporter.size() >= 2,
        exporter.export_outcome() is Ok,
        lex_sorted(ks),
        forall|k: Seq<u16>| #[trigger] ks.contains(k) <==> exporter.export_outcome()->Ok_0.rows.contains_key(k),
    ensures
        seeded.seed_outcome(encode_utf8(policy_text(ks, exporter.export_outcome()->Ok_0.rows))) == exporter.export_outcome(),
{
    let n = exporter.size();
    let sp = exporter.space_view();
    let slots = exporter.rules().slots as nat;
    let gs = memo_guesses(exporter.memo_view());
    let root = all_ids(n);
    let t = strategy_tree(sp, slots, gs, root)->Ok_0;
    let rows = t.rows;
    assert(exporter.space.deep_view().len() == exporter.space@.len());
    assert(seeded.space.deep_view().len() == seeded.space@.len());
    assert(seeded.size() == n);
    lemma_tree_rows(sp, slots, gs, root);
    assert(rows.contains_key(root));
    assert(ks.contains(root));
    assert(ks.len() >= 1);
    assert forall|i: int| 0 <= i < ks.len() implies (#[trigger] ks[i]).len() >= 1 && rows.contains_key(ks[i]) && (
    rows[ks[i]].0 as nat) < n by {
        assert(ks.contains(ks[i]));
        let k = ks[i];
        assert(gs.contains_key(k));
        assert(exporter.memo.view().contains_key(k));
    }
    assert(crate::exchange::writable_rows(ks, rows, n));
    crate::exchange::lemma_rows_lines(ks, rows, n);
    let text = policy_text(ks, rows);
    assert(text == rows_text(ks, rows));
    assert(vstd::utf8::is_ascii_chars(text)) by {
        assert forall|i: int| 0 <= i < text.len() implies '\0' <= #[trigger] text[i] <= '\u{7f}' by {
            assert(crate::exchange::plain_char(text[i]));
        }
    }
    vstd::utf8::is_ascii_chars_encode_utf8(text);
    assert(encode_utf8(text) =~= crate::exchange::ascii(text));
    let lines = Seq::new(ks.len(), |i: int| crate::exchange::row_line(ks, rows, i));
    crate::exchange::lemma_seed_rows_lines(ks, rows, n, ks.len() as int);
    assert(lines.take(ks.len() as int) =~= lines);
    let table = crate::exchange::row_guesses(ks, rows, ks.len() as int);
    assert(seed_rows(lines_of(encode_utf8(text)), n) == Ok::<Map<Seq<u16>, u16>, SearchError>(table));
    assert forall|k: Seq<u16>| #[trigger] rows.contains_key(k) implies table.contains_key(k) && table[k] == gs[k] by {
        assert(ks.contains(k));
        let j = choose|j: int| 0 <= j < ks.len() && ks[j] == k;
        assert(table.contains_key(k));
    }
    lemma_tree_agrees(sp, slots, gs, table, root);
}

/// An optimizer whose bounds are sound, whose strategies are realized and
/// whose memoized states list their ids in increasing order holds only
/// entries a checkpoint accepts, so its checkpoint resumes it
/// (`lemma_checkpoint_resumes`).
#[verifier::spinoff_prover]
#[verifier::rlimit(30)]
pub proof fn lemma_entries_valid(o: &Optimizer)
    requires
        o.wf(),
        o.lowers_sound(),
        o.strategies_realized(),
        o.states_in_order(),
    ensures
        forall|k: Seq<u16>| #[trigger] o.memo_view().contains_key(k) ==> valid_entry(k, o.memo_view()[k], o.size(), o.branches()),
{
    let n = o.size();
    let sp = o.space_view();
    let sl = o.rules().slots as nat;
    assert(sp.len() == n);
    assert forall|k: Seq<u16>| #[trigger] o.memo_view().contains_key(k) implies valid_entry(k, o.memo_view()[k], n, o.branches()) by {
        let e = o.memo_view()[k];
        assert(increasing(k));
        assert(k.no_duplicates()) by {
            assert forall|i: int, j: int| 0 <= i < k.len() && 0 <= j < k.len() && i != j implies k[i] != k[j] by {
                if i < j {
                    assert(k[i] < k[j]);
                } else {
                    assert(k[j] < k[i]);
                }
            }
        }
        assert(crate::checkpoint::strictly_increasing(k)) by {
            assert forall|i: int| 0 <= i < k.len() - 1 implies #[trigger] k[i] < k[i + 1] by {}
        }
        lemma_ids_len(k, n);
        if k.len() == n {
            crate::symmetry::lemma_full_increasing(k, n);
        }
        assert(o.proper_set(k));
        o.lemma_lower_sound(k);
        o.lemma_distinct_codes(k);
        crate::bound::lemma_first_candidate_tree(sp, sl, k);
        let g1 = crate::bound::first_candidate_guesses(sp.len());
        assert(guesses_in(g1, sp.len()));
        assert(strategy_tree(sp, sl, g1, k) is Ok);
        let l = k.len();
        assert(e.lower <= l * (l + 1) / 2);
        assert(l * (l + 1) / 2 < 0x1_0000_0000) by (nonlinear_arith)
            requires
                l <= 1296,
        ;
        match e.upper {
            Some(nd) => {
                o.lemma_bound_below_strategy(k);
                assert(realizes(sp, sl, k, nd));
                let g = choose|g: Map<Seq<u16>, u16>| #[trigger]
                    strategy_tree(sp, sl, g, k) matches Ok(t) && guesses_in(g, sp.len()) && t.guess == nd.guess
                        && t.total <= nd.total && t.worst <= nd.worst && (exact_state(sp, sl, k) ==> t.total == nd.total
                        && t.worst == nd.worst);
                crate::bound::lemma_tree_upper(sp, sl, g, k);
                assert(l * l < 0x1_0000_0000) by (nonlinear_arith)
                    requires
                        l <= 1296,
                ;
            },
            None => {},
        }
    }
}

/// Two optimizers with the same rules and the same memoized bounds agree on
/// whether those bounds are sound and their strategies realized, so a state
/// resumed from a checkpoint keeps what held of the state that saved it.
pub proof fn lemma_same_memo_same_guarantees(a: &Optimizer, b: &Optimizer)
    requires
        a.wf(),
        b.wf(),
        a.rules() == b.rules(),
        a.memo_view() == b.memo_view(),
    ensures
        a.space_view() == b.space_view(),
        a.size() == b.size(),
        a.lowers_sound() == b.lowers_sound(),
        a.strategies_realized() == b.strategies_realized(),
        forall|k: Seq<u16>| a.lower_spec(k) == #[trigger] b.lower_spec(k) && a.upper_spec(k) == b.upper_spec(k),
{
    assert(a.space_view() == b.space_view());
    assert(a.space@.len() == a.space.deep_view().len());
    assert(b.space@.len() == b.space.deep_view().len());
    assert(a.branches() == b.branches());
}

/// The checkpoint that `checkpoint_bytes` writes, loaded into an optimizer
/// for the same game, restores exactly the memoized bounds, provided every
/// memoized state passes the loader's checks (`lemma_entries_valid`).
pub proof fn lemma_checkpoint_resumes(saved: &Optimizer, loader: &Optimizer, ks: Seq<Seq<u16>>)
    requires
        saved.wf(),
        loader.wf(),
        loader.rules() == saved.rules(),
        lex_sorted(ks),
        forall|k: Seq<u16>| #[trigger] ks.contains(k) <==> saved.memo_view().contains_key(k),
        ks.len() <= usize::MAX,
        forall|k: Seq<u16>| #[trigger] saved.memo_view().contains_key(k) ==> valid_entry(
            k,
            saved.memo_view()[k],
            saved.size(),
            saved.branches(),
        ),
    ensures
        loader.checkpoint_outcome(
            checkpoint_spec(saved.rules().colors as u8, saved.rules().slots as u8, ks, saved.memo_view()),
        ) == Ok::<Map<Seq<u16>, Entry>, CheckpointError>(saved.memo_view()),
{
    assert(loader.space.deep_view().len() == loader.space@.len());
    assert(saved.space.deep_view().len() == saved.space@.len());
    assert(loader.size() == saved.size());
    lemma_checkpoint_round_trip(
        saved.rules().colors as u8,
        saved.rules().slots as u8,
        ks,
        saved.memo_view(),
        saved.size(),
        saved.branches(),
    );
}

/// Rows held with `usize` step counts, with natural step counts.
pub open spec fn rows_of(held: Map<Seq<u16>, (u16, usize)>) -> Map<Seq<u16>, (u16, nat)> {
    Map::new(|k: Seq<u16>| held.contains_key(k), |k: Seq<u16>| (held[k].0, held[k].1 as nat))
}

proof fn lemma_rows_agree_union(
    held0: Map<Seq<u16>, (u16, usize)>,
    rows0: Map<Seq<u16>, (u16, nat)>,
    held1: Map<Seq<u16>, (u16, usize)>,
    extra: Map<Seq<u16>, (u16, nat)>,
)
    requires
        rows_agree(held0, rows0),
        rows_agree(held1, rows_of(held0).union_prefer_right(extra)),
    ensures
        rows_agree(held1, rows0.union_prefer_right(extra)),
{
    assert forall|k: Seq<u16>| #[trigger] held1.contains_key(k) <==> rows0.union_prefer_right(extra).contains_key(k) by {
        if rows_of(held0).contains_key(k) {
            assert(held0.contains_key(k));
        }
    }
    assert forall|k: Seq<u16>| #[trigger] held1.contains_key(k) implies held1[k].0 == rows0.union_prefer_right(extra)[k].0
        && held1[k].1 as nat == rows0.union_prefer_right(extra)[k].1 by {
        if !extra.contains_key(k) {
            assert(held0.contains_key(k));
        }
    }
}

} // verus!
