//! State of one playing session and the rules that decide what the result
//! area reports.
use vstd::prelude::*;

use crate::judge::count_color;
use crate::model::{Record, Settings};
use crate::palette::{counts_from_marks, marks_from_counts, marks_spec, COLORS, MARK_EXACT, MARK_PARTIAL, MARK_UNKNOWN};

verus! {

/// The game allows this many guesses before the final answer.
pub const MAX_ROUNDS: usize = 6;

/// Slots of the real game.
pub const SLOTS: usize = 4;

/// The two ways of using the tool.
#[derive(Clone, Copy, Debug, PartialEq, Eq, Structural)]
pub enum Tab {
    Assistant,
    Solve,
}

/// Records entered so far and the draft of the final answer.
pub struct SessionState {
    pub settings: Settings,
    pub records: Vec<Record>,
    pub answer: Vec<u8>,
}

impl Default for SessionState {
    fn default() -> (s: Self)
        ensures
            s.settings == (Settings { colors: 6, slots: 4, repeats: true }),
            s.records@.len() == 0,
            s.answer@.len() == 0,
    {
        SessionState {
            settings: Settings { colors: COLORS, slots: SLOTS, repeats: true },
            records: Vec::new(),
            answer: Vec::new(),
        }
    }
}

/// Draft of a record being typed or edited.
pub struct RecordEditor {
    pub slots: Vec<u8>,
    pub marks: Vec<u8>,
    /// Index of the record being edited, if any.
    pub editing: Option<usize>,
}

impl Default for RecordEditor {
    fn default() -> (e: Self)
        ensures
            e.slots@.len() == 0,
            e.marks@.len() == 0,
            e.editing is None,
    {
        RecordEditor { slots: Vec::new(), marks: Vec::new(), editing: None }
    }
}

impl RecordEditor {
    /// Discards the draft.
    pub fn reset(&mut self)
        ensures
            final(self).slots@.len() == 0,
            final(self).marks@.len() == 0,
            final(self).editing is None,
    {
        self.slots.clear();
        self.marks.clear();
        self.editing = None;
    }
}

/// Stage of the background analysis of the current records.
#[derive(Debug, Clone, Copy, PartialEq, Eq, Structural)]
pub enum AnalysisPhase {
    Idle,
    Filtering,
    Recommending,
    Refining,
    Complete,
    Failed,
}

impl Default for AnalysisPhase {
    fn default() -> (p: Self)
        ensures
            p == AnalysisPhase::Idle,
    {
        AnalysisPhase::Idle
    }
}

/// The analysis is still working in this phase.
pub fn phase_is_running(phase: AnalysisPhase) -> (b: bool)
    ensures
        b <==> (phase == AnalysisPhase::Filtering || phase == AnalysisPhase::Recommending || phase
            == AnalysisPhase::Refining),
{
    match phase {
        AnalysisPhase::Filtering | AnalysisPhase::Recommending | AnalysisPhase::Refining => true,
        _ => false,
    }
}

/// A guarantee of `steps` submissions still fits after `completed_rounds`
/// guesses: the remaining guesses plus the final answer are enough.
pub fn guarantee_fits(steps: usize, completed_rounds: usize) -> (b: bool)
    ensures
        b <==> steps <= (if completed_rounds <= MAX_ROUNDS {
            MAX_ROUNDS - completed_rounds
        } else {
            0
        }) + 1,
{
    steps <= MAX_ROUNDS.saturating_sub(completed_rounds) + 1
}

pub open spec fn status_text(phase: AnalysisPhase, has_verified_steps: bool, unique: bool) -> Seq<char> {
    match phase {
        AnalysisPhase::Idle => "等待分析"@,
        AnalysisPhase::Filtering => "正在筛选候选"@,
        AnalysisPhase::Recommending => "正在生成快速建议"@,
        AnalysisPhase::Refining => "快速建议 · 正在验证步数"@,
        AnalysisPhase::Complete => if has_verified_steps {
            "步数已验证"@
        } else if unique {
            "候选已核对"@
        } else {
            "分析完成"@
        },
        AnalysisPhase::Failed => "分析失败"@,
    }
}

/// Status line of the analysis: a completed analysis claims verified steps
/// only when the recommendation carries a proven step bound.
pub fn phase_status(phase: AnalysisPhase, has_verified_steps: bool, unique: bool) -> (s: &'static str)
    ensures
        s@ == status_text(phase, has_verified_steps, unique),
{
    match phase {
        AnalysisPhase::Idle => "等待分析",
        AnalysisPhase::Filtering => "正在筛选候选",
        AnalysisPhase::Recommending => "正在生成快速建议",
        AnalysisPhase::Refining => "快速建议 · 正在验证步数",
        AnalysisPhase::Complete => if has_verified_steps {
            "步数已验证"
        } else if unique {
            "候选已核对"
        } else {
            "分析完成"
        },
        AnalysisPhase::Failed => "分析失败",
    }
}

/// How a typed final answer relates to the current candidates.
#[derive(Debug, Clone, Copy, PartialEq, Eq, Structural)]
pub enum AnswerVerdict {
    /// The candidates do not reflect the current records yet.
    Pending,
    /// The answer is the only candidate.
    Unique,
    /// The answer is one of this many candidates.
    Possible(usize),
    /// The answer contradicts the enabled records.
    Contradiction,
}

fn same_code(a: &Vec<u8>, b: &[u8]) -> (r: bool)
    ensures
        r == (a@ == b@),
{
    if a.len() != b.len() {
        return false;
    }
    let mut i: usize = 0;
    while i < b.len()
        invariant
            a@.len() == b@.len(),
            i <= b@.len(),
            forall|q: int| 0 <= q < i ==> a@[q] == b@[q],
        decreases b@.len() - i,
    {
        if a[i] != b[i] {
            return false;
        }
        i += 1;
    }
    assert(a@ =~= b@);
    true
}

/// Checks a final answer against candidates that are `ready` (filtered) and
/// `current` (computed for the records as they stand now).
pub fn answer_verdict(ready: bool, candidates: &[Vec<u8>], current: bool, answer: &[u8]) -> (v: AnswerVerdict)
    ensures
        !current || !ready ==> v == AnswerVerdict::Pending,
        current && ready && !candidates.deep_view().contains(answer@) ==> v == AnswerVerdict::Contradiction,
        current && ready && candidates.deep_view().contains(answer@) && candidates@.len() == 1 ==> v == AnswerVerdict::Unique,
        current && ready && candidates.deep_view().contains(answer@) && candidates@.len() != 1 ==> v == AnswerVerdict::Possible(candidates@.len() as usize),
{
    if !current || !ready {
        return AnswerVerdict::Pending;
    }
    let ghost cv = candidates.deep_view();
    let mut found = false;
    let mut i: usize = 0;
    while i < candidates.len()
        invariant
            i <= candidates@.len(),
            cv == candidates.deep_view(),
            found == exists|q: int| 0 <= q < i && #[trigger] cv[q] == answer@,
        decreases candidates@.len() - i,
    {
        assert(cv[i as int] == candidates@[i as int]@);
        if same_code(&candidates[i], answer) {
            found = true;
        }
        i += 1;
    }
    if !found {
        return AnswerVerdict::Contradiction;
    }
    if candidates.len() == 1 {
        AnswerVerdict::Unique
    } else {
        AnswerVerdict::Possible(candidates.len())
    }
}


/// Candidate sets up to this size get a lookahead guarantee.
pub const LOOKAHEAD_CANDIDATE_LIMIT: usize = 30;

/// What an analysis does once the candidates of the records are known.
#[derive(Debug, Clone, Copy, PartialEq, Eq, Structural)]
pub enum NextStep {
    /// No candidate is left: name the suspect records and finish.
    Contradiction,
    /// Every round is used: show the candidates and finish.
    RoundsExhausted,
    /// Look for a recommendation.
    Recommend,
}

/// The step after filtering `candidate_count` candidates from
/// `record_count` records.
pub fn next_step(candidate_count: usize, record_count: usize) -> (s: NextStep)
    ensures
        s == (if candidate_count == 0 {
            NextStep::Contradiction
        } else if record_count >= MAX_ROUNDS {
            NextStep::RoundsExhausted
        } else {
            NextStep::Recommend
        }),
{
    if candidate_count == 0 {
        NextStep::Contradiction
    } else if record_count >= MAX_ROUNDS {
        NextStep::RoundsExhausted
    } else {
        NextStep::Recommend
    }
}

/// How a recommendation is made for `candidate_count` candidates.
#[derive(Debug, Clone, Copy, PartialEq, Eq, Structural)]
pub enum Tier {
    /// One candidate: submit it.
    Answer,
    /// Two candidates: guess the first; two submissions at most.
    FirstOfTwo,
    /// Up to the lookahead limit: a quick suggestion, then a lookahead
    /// guarantee when one is found.
    Lookahead,
    /// More: a suggestion by expected information only.
    Quick,
}

/// The tier of a recommendation for a non-empty set of candidates.
pub fn tier(candidate_count: usize) -> (t: Tier)
    requires
        candidate_count >= 1,
    ensures
        t == (if candidate_count == 1 {
            Tier::Answer
        } else if candidate_count == 2 {
            Tier::FirstOfTwo
        } else if candidate_count <= LOOKAHEAD_CANDIDATE_LIMIT {
            Tier::Lookahead
        } else {
            Tier::Quick
        }),
{
    if candidate_count == 1 {
        Tier::Answer
    } else if candidate_count == 2 {
        Tier::FirstOfTwo
    } else if candidate_count <= LOOKAHEAD_CANDIDATE_LIMIT {
        Tier::Lookahead
    } else {
        Tier::Quick
    }
}

/// The phase published with the quick suggestion: refining while a
/// lookahead guarantee is still sought.
pub fn quick_phase(candidate_count: usize) -> (p: AnalysisPhase)
    ensures
        p == (if 3 <= candidate_count <= LOOKAHEAD_CANDIDATE_LIMIT {
            AnalysisPhase::Refining
        } else {
            AnalysisPhase::Complete
        }),
{
    if 3 <= candidate_count && candidate_count <= LOOKAHEAD_CANDIDATE_LIMIT {
        AnalysisPhase::Refining
    } else {
        AnalysisPhase::Complete
    }
}


/// A copy of a list of gems.
fn copy_gems(s: &[u8]) -> (v: Vec<u8>)
    ensures
        v@ == s@,
{
    let mut v: Vec<u8> = Vec::new();
    let mut i: usize = 0;
    while i < s.len()
        invariant
            i <= s@.len(),
            v@ =~= s@.take(i as int),
        decreases s@.len() - i,
    {
        v.push(s[i]);
        i += 1;
    }
    assert(s@.take(s@.len() as int) =~= s@);
    v
}

/// `gems` cut to its first `len` entries, or whole when it is shorter.
pub open spec fn cut(gems: Seq<u8>, len: nat) -> Seq<u8> {
    if len < gems.len() {
        gems.take(len as int)
    } else {
        gems
    }
}

/// `gems` with `color` added when fewer than `slots` are filled.
pub open spec fn filled(gems: Seq<u8>, color: u8, slots: nat) -> Seq<u8> {
    if gems.len() < slots {
        gems.push(color)
    } else {
        gems
    }
}

impl RecordEditor {
    /// Loads record `index` into the draft to edit it.
    pub fn start_edit(&mut self, index: usize, record: &Record)
        ensures
            final(self).slots@ == record.guess@,
            final(self).marks@ == marks_spec(record.exact as nat, record.partial as nat, record.guess@.len()),
            final(self).editing == Some(index),
    {
        self.slots = copy_gems(record.guess.as_slice());
        self.marks = marks_from_counts(record.exact, record.partial, record.guess.len());
        self.editing = Some(index);
    }

    /// Gives the draft one feedback mark per slot: extra marks are dropped,
    /// missing ones are unknown.
    pub fn fit_marks(&mut self, slots: usize)
        ensures
            final(self).marks@.len() == slots,
            forall|i: int| 0 <= i < slots ==> #[trigger] final(self).marks@[i] == if i < old(self).marks@.len() {
                old(self).marks@[i]
            } else {
                MARK_UNKNOWN
            },
            final(self).slots@ == old(self).slots@,
            final(self).editing == old(self).editing,
    {
        if self.marks.len() > slots {
            self.marks.truncate(slots);
        } else {
            while self.marks.len() < slots
                invariant
                    self.marks@.len() <= slots,
                    forall|i: int| 0 <= i < self.marks@.len() ==> #[trigger] self.marks@[i] == if i < old(self).marks@.len() {
                        old(self).marks@[i]
                    } else {
                        MARK_UNKNOWN
                    },
                    old(self).marks@.len() <= self.marks@.len(),
                    self.slots@ == old(self).slots@,
                    self.editing == old(self).editing,
                decreases slots - self.marks@.len(),
            {
                self.marks.push(MARK_UNKNOWN);
            }
        }
    }

    /// Empties slot `slot` of the draft and every slot after it.
    pub fn clear_from(&mut self, slot: usize)
        ensures
            final(self).slots@ == cut(old(self).slots@, slot as nat),
            final(self).marks@ == old(self).marks@,
            final(self).editing == old(self).editing,
    {
        self.slots.truncate(slot);
    }

    /// Puts `color` in the first empty slot of the draft, if one of the
    /// `slots` slots is still empty.
    pub fn push_color(&mut self, color: u8, slots: usize)
        ensures
            final(self).slots@ == filled(old(self).slots@, color, slots as nat),
            final(self).marks@ == old(self).marks@,
            final(self).editing == old(self).editing,
    {
        if self.slots.len() < slots {
            self.slots.push(color);
        }
    }

    /// The record the draft describes: its gems and the counts of its
    /// exact and partial marks, enabled.
    pub fn draft(&self) -> (r: Record)
        ensures
            r.guess@ == self.slots@,
            r.exact == count_color(self.marks@, MARK_EXACT as int) as u8,
            r.partial == count_color(self.marks@, MARK_PARTIAL as int) as u8,
            r.enabled,
    {
        let (exact, partial) = counts_from_marks(self.marks.as_slice());
        Record { guess: copy_gems(self.slots.as_slice()), exact, partial, enabled: true }
    }

    /// The draft fills every slot and makes a valid record.
    pub fn draft_ready(&self, settings: &Settings) -> (b: bool)
        ensures
            b <==> draft_ready_spec(*self, *settings),
    {
        let candidate = self.draft();
        self.slots.len() == settings.slots && candidate.validate(settings).is_ok()
    }
}

/// Saving the draft of `ed` took `before` to `after` and cleared the
/// editor: the record being edited gets the draft's gems and counts and
/// keeps its switch; otherwise the draft is added as a new enabled record.
pub open spec fn draft_committed(before: SessionState, after: SessionState, ed: RecordEditor, ed_after: RecordEditor) -> bool {
    &&& ed_after.slots@.len() == 0
    &&& ed_after.marks@.len() == 0
    &&& ed_after.editing is None
    &&& after.settings == before.settings
    &&& after.answer@ == before.answer@
    &&& match ed.editing {
        Some(i) => {
            &&& after.records@.len() == before.records@.len()
            &&& after.records@[i as int].guess@ == ed.slots@
            &&& after.records@[i as int].exact == count_color(ed.marks@, MARK_EXACT as int) as u8
            &&& after.records@[i as int].partial == count_color(ed.marks@, MARK_PARTIAL as int) as u8
            &&& after.records@[i as int].enabled == before.records@[i as int].enabled
            &&& forall|j: int| 0 <= j < after.records@.len() && j != i ==> #[trigger] after.records@[j] == before.records@[j]
        },
        None => {
            &&& after.records@.len() == before.records@.len() + 1
            &&& after.records@.drop_last() == before.records@
            &&& after.records@.last().guess@ == ed.slots@
            &&& after.records@.last().exact == count_color(ed.marks@, MARK_EXACT as int) as u8
            &&& after.records@.last().partial == count_color(ed.marks@, MARK_PARTIAL as int) as u8
            &&& after.records@.last().enabled
        },
    }
}

/// The draft of `ed` is complete and valid under `settings`: every slot
/// holds a colour of the game and the counts fit the slots.
pub open spec fn draft_ready_spec(ed: RecordEditor, settings: Settings) -> bool {
    let exact = count_color(ed.marks@, MARK_EXACT as int) as u8;
    let partial = count_color(ed.marks@, MARK_PARTIAL as int) as u8;
    &&& ed.slots@.len() == settings.slots
    &&& forall|i: int| 0 <= i < ed.slots@.len() ==> (#[trigger] ed.slots@[i] as int) < settings.colors
    &&& exact + partial <= settings.slots
}

impl SessionState {
    /// Saves the draft and clears it: the record being edited gets the
    /// draft's gems and counts and keeps its switch; otherwise the draft is
    /// added as a new enabled record.
    pub fn commit_draft(&mut self, editor: &mut RecordEditor)
        requires
            old(editor).editing matches Some(i) ==> i < old(self).records@.len(),
        ensures
            draft_committed(*old(self), *final(self), *old(editor), *final(editor)),
    {
        let mut record = editor.draft();
        match editor.editing {
            Some(i) => {
                record.enabled = self.records[i].enabled;
                self.records.set(i, record);
            },
            None => {
                self.records.push(record);
                assert(self.records@.drop_last() =~= old(self).records@);
            },
        }
        editor.reset();
    }

    /// Saves the draft when it is complete and valid and has a place: the
    /// record it edits exists, or, for a new record, fewer than
    /// `MAX_ROUNDS` are kept. Otherwise nothing changes.
    pub fn try_commit_draft(&mut self, editor: &mut RecordEditor) -> (committed: bool)
        ensures
            committed == (draft_ready_spec(*old(editor), old(self).settings) && match old(editor).editing {
                Some(i) => i < old(self).records@.len(),
                None => old(self).records@.len() < MAX_ROUNDS,
            }),
            committed ==> draft_committed(*old(self), *final(self), *old(editor), *final(editor)),
            !committed ==> *final(self) == *old(self) && *final(editor) == *old(editor),
    {
        let ready = editor.draft_ready(&self.settings);
        let has_place = match editor.editing {
            Some(i) => i < self.records.len(),
            None => self.records.len() < MAX_ROUNDS,
        };
        if ready && has_place {
            self.commit_draft(editor);
            true
        } else {
            false
        }
    }

    /// Starts a new game under the same rules: no records, no answer draft
    /// and an empty editor.
    pub fn start_over(&mut self, editor: &mut RecordEditor)
        ensures
            final(self).settings == old(self).settings,
            final(self).records@.len() == 0,
            final(self).answer@.len() == 0,
            final(editor).slots@.len() == 0,
            final(editor).marks@.len() == 0,
            final(editor).editing is None,
    {
        self.records.clear();
        self.answer.clear();
        editor.reset();
    }

    /// Deletes record `index` and the answer draft; the editor keeps
    /// pointing at the same record, or is cleared when that record is gone.
    pub fn delete_record(&mut self, editor: &mut RecordEditor, index: usize)
        requires
            index < old(self).records@.len(),
        ensures
            final(self).records@ == old(self).records@.remove(index as int),
            final(self).answer@.len() == 0,
            final(self).settings == old(self).settings,
            match old(editor).editing {
                Some(e) => if e == index {
                    final(editor).slots@.len() == 0 && final(editor).marks@.len() == 0 && final(editor).editing is None
                } else if e > index {
                    final(editor).editing == Some((e - 1) as usize) && final(editor).slots@ == old(editor).slots@
                        && final(editor).marks@ == old(editor).marks@
                } else {
                    *final(editor) == *old(editor)
                },
                None => *final(editor) == *old(editor),
            },
    {
        self.records.remove(index);
        self.answer.clear();
        match editor.editing {
            Some(e) => {
                if e == index {
                    editor.reset();
                } else if e > index {
                    editor.editing = Some(e - 1);
                }
            },
            None => {},
        }
    }

    /// Puts `color` in the first empty slot of the answer draft, if any.
    pub fn push_answer(&mut self, color: u8)
        ensures
            final(self).answer@ == filled(old(self).answer@, color, old(self).settings.slots as nat),
            final(self).records@ == old(self).records@,
            final(self).settings == old(self).settings,
    {
        if self.answer.len() < self.settings.slots {
            self.answer.push(color);
        }
    }

    /// Empties slot `slot` of the answer draft and every slot after it.
    pub fn clear_answer_from(&mut self, slot: usize)
        ensures
            final(self).answer@ == cut(old(self).answer@, slot as nat),
            final(self).records@ == old(self).records@,
            final(self).settings == old(self).settings,
    {
        self.answer.truncate(slot);
    }
}

} // verus!
