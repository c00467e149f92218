use gemsleuth::palette::{counts_from_marks, mark_tip, marks_from_counts, name, MARK_EXACT, MARK_PARTIAL, MARK_UNKNOWN};
use gemsleuth::session::{
    answer_verdict, guarantee_fits, next_step, phase_is_running, phase_status, quick_phase, tier, AnalysisPhase,
    AnswerVerdict, NextStep, RecordEditor, SessionState, Tier,
};

#[test]
fn guarantee_fits_only_when_all_required_submissions_remain() {
    assert!(guarantee_fits(3, 2));
    assert!(guarantee_fits(5, 2));
    assert!(!guarantee_fits(6, 2));
    assert!(guarantee_fits(1, 6));
}

#[test]
fn guarantee_after_too_many_rounds_allows_only_one_submission() {
    assert!(guarantee_fits(1, 9));
    assert!(!guarantee_fits(2, 9));
}

#[test]
fn completed_entropy_analysis_never_claims_step_verification() {
    assert_eq!(phase_status(AnalysisPhase::Complete, false, false), "分析完成");
    assert_eq!(phase_status(AnalysisPhase::Complete, true, false), "步数已验证");
    assert_eq!(phase_status(AnalysisPhase::Complete, false, true), "候选已核对");
}

#[test]
fn running_phases() {
    assert!(phase_is_running(AnalysisPhase::Filtering));
    assert!(phase_is_running(AnalysisPhase::Recommending));
    assert!(phase_is_running(AnalysisPhase::Refining));
    assert!(!phase_is_running(AnalysisPhase::Idle));
    assert!(!phase_is_running(AnalysisPhase::Complete));
    assert!(!phase_is_running(AnalysisPhase::Failed));
    assert_eq!(phase_status(AnalysisPhase::Failed, true, true), "分析失败");
}

#[test]
fn editing_records_never_validates_against_an_old_unique_answer() {
    let candidates = vec![vec![2, 2, 2, 4]];
    assert_eq!(answer_verdict(true, &candidates, true, &[2, 2, 2, 4]), AnswerVerdict::Unique);
    assert_eq!(answer_verdict(true, &candidates, false, &[2, 2, 2, 4]), AnswerVerdict::Pending);
    assert_eq!(answer_verdict(true, &candidates, false, &[0; 4]), AnswerVerdict::Pending);
}

#[test]
fn unfiltered_cache_is_not_a_contradiction() {
    assert_eq!(answer_verdict(false, &[], true, &[0; 4]), AnswerVerdict::Pending);
    assert_eq!(answer_verdict(true, &[], true, &[0; 4]), AnswerVerdict::Contradiction);
}

#[test]
fn multiple_matching_answers_are_not_presented_as_unique() {
    let candidates = vec![vec![1; 4], vec![2; 4]];
    assert_eq!(answer_verdict(true, &candidates, true, &[1; 4]), AnswerVerdict::Possible(2));
    assert_eq!(answer_verdict(true, &candidates, true, &[3; 4]), AnswerVerdict::Contradiction);
}

#[test]
fn marks_round_trip() {
    assert_eq!(marks_from_counts(1, 2, 4), vec![MARK_EXACT, MARK_PARTIAL, MARK_PARTIAL, MARK_UNKNOWN]);
    assert_eq!(counts_from_marks(&marks_from_counts(1, 2, 4)), (1, 2));
    assert_eq!(counts_from_marks(&marks_from_counts(0, 0, 4)), (0, 0));
    assert_eq!(marks_from_counts(3, 3, 4), vec![MARK_EXACT, MARK_EXACT, MARK_EXACT, MARK_PARTIAL]);
    assert_eq!(counts_from_marks(&[2, 0, 1, 2, 1, 1]), (3, 2));
}

#[test]
fn colour_names_and_tips() {
    assert_eq!(name(0), "红");
    assert_eq!(name(2), "紫");
    assert_eq!(name(5), "绿");
    assert_eq!(mark_tip(MARK_EXACT), "蓝标:宝石种类和位置都对");
    assert_eq!(mark_tip(MARK_PARTIAL), "金标:种类对但位置错");
    assert_eq!(mark_tip(7), "问号:此槽无反馈标");
}

#[test]
fn session_and_editor_defaults() {
    let s = SessionState::default();
    assert_eq!((s.settings.colors, s.settings.slots, s.settings.repeats), (6, 4, true));
    assert!(s.records.is_empty() && s.answer.is_empty());
    let mut e = RecordEditor { slots: vec![1, 2], marks: vec![1], editing: Some(3) };
    e.reset();
    assert!(e.slots.is_empty() && e.marks.is_empty() && e.editing.is_none());
    assert_eq!(AnalysisPhase::default(), AnalysisPhase::Idle);
}

#[test]
fn analysis_steps_follow_the_candidate_count() {
    assert_eq!(next_step(0, 2), NextStep::Contradiction);
    assert_eq!(next_step(0, 6), NextStep::Contradiction);
    assert_eq!(next_step(5, 6), NextStep::RoundsExhausted);
    assert_eq!(next_step(5, 5), NextStep::Recommend);
    assert_eq!(tier(1), Tier::Answer);
    assert_eq!(tier(2), Tier::FirstOfTwo);
    assert_eq!(tier(3), Tier::Lookahead);
    assert_eq!(tier(30), Tier::Lookahead);
    assert_eq!(tier(31), Tier::Quick);
    assert_eq!(quick_phase(2), AnalysisPhase::Complete);
    assert_eq!(quick_phase(24), AnalysisPhase::Refining);
    assert_eq!(quick_phase(1296), AnalysisPhase::Complete);
}

#[test]
fn editing_a_record_keeps_its_switch_and_deleting_shifts_the_editor() {
    let mut session = SessionState::default();
    let mut editor = RecordEditor::default();
    editor.push_color(1, 4);
    editor.push_color(2, 4);
    editor.push_color(3, 4);
    editor.push_color(4, 4);
    editor.push_color(5, 4);
    assert_eq!(editor.slots, vec![1, 2, 3, 4]);
    editor.fit_marks(4);
    assert_eq!(editor.marks, vec![MARK_UNKNOWN; 4]);
    editor.marks[0] = MARK_EXACT;
    editor.marks[1] = MARK_PARTIAL;
    assert!(editor.draft_ready(&session.settings));
    session.commit_draft(&mut editor);
    assert_eq!(session.records.len(), 1);
    assert_eq!((session.records[0].exact, session.records[0].partial), (1, 1));
    assert!(editor.slots.is_empty() && editor.editing.is_none());

    let first = session.records[0].duplicate();
    session.records.push(first.duplicate());
    session.records[0].enabled = false;
    let zero = session.records[0].duplicate();
    editor.start_edit(0, &zero);
    assert_eq!(editor.marks, vec![MARK_EXACT, MARK_PARTIAL, MARK_UNKNOWN, MARK_UNKNOWN]);
    editor.clear_from(2);
    assert_eq!(editor.slots, vec![1, 2]);
    assert!(!editor.draft_ready(&session.settings));
    editor.push_color(0, 4);
    editor.push_color(0, 4);
    session.commit_draft(&mut editor);
    assert_eq!(session.records[0].guess, vec![1, 2, 0, 0]);
    assert!(!session.records[0].enabled);

    editor.start_edit(1, &first);
    session.answer = vec![1, 2];
    session.delete_record(&mut editor, 0);
    assert_eq!(session.records.len(), 1);
    assert!(session.answer.is_empty());
    assert_eq!(editor.editing, Some(0));
    session.delete_record(&mut editor, 0);
    assert_eq!(editor.editing, None);
}

#[test]
fn the_answer_draft_fills_and_clears_slot_by_slot() {
    let mut session = SessionState::default();
    for color in [5, 4, 3, 2, 1] {
        session.push_answer(color);
    }
    assert_eq!(session.answer, vec![5, 4, 3, 2]);
    session.clear_answer_from(1);
    assert_eq!(session.answer, vec![5]);
    session.clear_answer_from(3);
    assert_eq!(session.answer, vec![5]);
}

#[test]
fn a_draft_is_saved_only_when_complete_and_there_is_room() {
    let mut session = SessionState::default();
    let mut editor = RecordEditor::default();
    editor.push_color(1, 4);
    assert!(!session.try_commit_draft(&mut editor));
    assert!(session.records.is_empty());
    assert_eq!(editor.slots, vec![1]);
    for color in [2, 3, 4] {
        editor.push_color(color, 4);
    }
    editor.fit_marks(4);
    for round in 0..6 {
        assert!(session.try_commit_draft(&mut editor), "round {round}");
        assert!(editor.slots.is_empty());
        for color in [1, 2, 3, 4] {
            editor.push_color(color, 4);
        }
        editor.fit_marks(4);
    }
    assert_eq!(session.records.len(), 6);
    assert!(!session.try_commit_draft(&mut editor));
    assert_eq!(session.records.len(), 6);
    assert_eq!(editor.slots, vec![1, 2, 3, 4]);
    let zero = session.records[0].duplicate();
    editor.start_edit(0, &zero);
    editor.marks[0] = MARK_EXACT;
    assert!(session.try_commit_draft(&mut editor));
    assert_eq!(session.records[0].exact, 1);
}

#[test]
fn counts_read_from_marks_ignore_their_order() {
    assert_eq!(counts_from_marks(&[1, 2, 0, 1]), counts_from_marks(&[2, 1, 1, 0]));
    assert_eq!(counts_from_marks(&[0, 1, 2, 1]), (2, 1));
}

#[test]
fn starting_over_clears_records_answer_and_draft_but_keeps_the_rules() {
    let mut session = SessionState::default();
    let mut editor = RecordEditor::default();
    for color in [1, 2, 3, 4] {
        editor.push_color(color, 4);
    }
    editor.fit_marks(4);
    editor.marks[0] = MARK_EXACT;
    session.commit_draft(&mut editor);
    session.push_answer(2);
    editor.start_edit(0, &session.records[0].duplicate());
    let rules = (session.settings.colors, session.settings.slots, session.settings.repeats);
    session.start_over(&mut editor);
    assert!(session.records.is_empty());
    assert!(session.answer.is_empty());
    assert!(editor.slots.is_empty() && editor.marks.is_empty() && editor.editing.is_none());
    assert_eq!((session.settings.colors, session.settings.slots, session.settings.repeats), rules);
}
