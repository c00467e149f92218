use gemsleuth::judge::judge;
use gemsleuth::lookahead::{
    feedback_counts, guess_space, lookahead_best, lookahead_best_cancellable, possible_guesses, sample_guesses,
    search_is_sampled, SAMPLE_SIZE,
};
use gemsleuth::model::{Record, Settings};
use gemsleuth::solver::{enumerate_space, filter_candidates};
use std::sync::atomic::AtomicBool;

fn default_space() -> Vec<Vec<u8>> {
    enumerate_space(&Settings::default())
}

fn ab_candidates() -> Vec<Vec<u8>> {
    filter_candidates(
        &Settings::default(),
        &[Record::new(vec![3, 1, 2, 0], 1, 0), Record::new(vec![3, 1, 2, 5], 1, 0)],
    )
}

fn c3() -> Vec<Vec<u8>> {
    vec![vec![0, 0, 0, 0], vec![0, 0, 0, 1], vec![1, 1, 1, 1]]
}

#[test]
fn lookahead_c3_guarantees_2() {
    let guesses = default_space();
    assert_eq!(lookahead_best(&c3(), &guesses, 3), Some((vec![0, 0, 0, 0], 2)));
}

#[test]
fn lookahead_depth0_falls_back_to_none() {
    let guesses = default_space();
    assert_eq!(lookahead_best(&c3(), &guesses, 0), None);
}

#[test]
fn lookahead_cannot_submit_a_singleton_after_depth_budget_expires() {
    let guesses = default_space();
    assert_eq!(lookahead_best(&c3(), &guesses, 1), None);
    assert_eq!(lookahead_best(&c3(), &guesses, 2), Some((vec![0, 0, 0, 0], 2)));
}

#[test]
fn lookahead_24_candidates_guarantees_3() {
    let guesses = default_space();
    assert_eq!(lookahead_best(&ab_candidates(), &guesses, 3), Some((vec![0, 0, 4, 4], 3)));
}

#[test]
fn single_candidate_is_submitted_at_once() {
    let guesses = default_space();
    assert_eq!(lookahead_best(&[vec![2, 3, 4, 5]], &guesses, 1), Some((vec![2, 3, 4, 5], 1)));
}

#[test]
fn a_set_cancelled_lookahead_returns_nothing() {
    let guesses = default_space();
    let cancelled = AtomicBool::new(true);
    assert_eq!(lookahead_best_cancellable(&c3(), &guesses, 3, &cancelled), None);
    let running = AtomicBool::new(false);
    assert_eq!(
        lookahead_best_cancellable(&c3(), &guesses, 3, &running),
        Some((vec![0, 0, 0, 0], 2))
    );
}

#[test]
fn feedback_counts_partition_the_candidates() {
    let cands = ab_candidates();
    let guess = vec![3, 4, 4, 1];
    let counts = feedback_counts(&guess, &cands);
    assert_eq!(counts.len(), 25);
    assert_eq!(counts.iter().sum::<usize>(), 24);
    assert_eq!(*counts.iter().max().unwrap(), 5);
    for c in &cands {
        let (e, p) = judge(&guess, c);
        assert!(counts[e as usize * 5 + p as usize] > 0);
    }
}

#[test]
fn sampling_is_disclosed_only_for_searched_recommendations() {
    let big = Settings { colors: 8, slots: 5, repeats: true };
    assert_eq!(possible_guesses(&big), 32768);
    assert_eq!(possible_guesses(&Settings::default()), 1296);
    assert_eq!(possible_guesses(&Settings { colors: 6, slots: 4, repeats: false }), 360);
    assert!(search_is_sampled(&big, 32768, true));
    assert!(!search_is_sampled(&big, 2, true));
    assert!(!search_is_sampled(&big, 1, false));
    assert!(!search_is_sampled(&Settings::default(), 24, true));
    assert!(search_is_sampled(&Settings::default(), 20001, true));
}

#[test]
fn sample_covers_small_space_entirely() {
    let space = enumerate_space(&Settings { colors: 4, slots: 4, repeats: true });
    assert_eq!(space.len(), 256);
    assert_eq!(sample_guesses(&space, SAMPLE_SIZE), space);
}

#[test]
fn sample_is_deterministic_and_distinct() {
    let space = enumerate_space(&Settings { colors: 8, slots: 6, repeats: true });
    let a = sample_guesses(&space, SAMPLE_SIZE);
    let b = sample_guesses(&space, SAMPLE_SIZE);
    assert_eq!(a, b);
    assert_eq!(a.len(), SAMPLE_SIZE);
    let uniq: std::collections::HashSet<_> = a.iter().collect();
    assert_eq!(uniq.len(), SAMPLE_SIZE);
}

#[test]
fn guess_space_full_below_limit_and_sampled_above() {
    assert_eq!(guess_space(&Settings::default()).len(), 1296);
    assert_eq!(guess_space(&Settings { colors: 8, slots: 6, repeats: true }).len(), SAMPLE_SIZE);
}

#[test]
fn a_sample_keeps_space_order_and_takes_the_first_draws() {
    let space = enumerate_space(&Settings { colors: 3, slots: 2, repeats: true });
    let sample = sample_guesses(&space, 4);
    assert_eq!(sample.len(), 4);
    let positions: Vec<usize> = sample.iter().map(|c| space.iter().position(|s| s == c).unwrap()).collect();
    assert!(positions.windows(2).all(|w| w[0] < w[1]));
    // The same draws, taken by hand: xorshift from the fixed seed.
    let mut rng: u64 = 0x9E37_79B9_7F4A_7C15;
    let mut chosen: Vec<usize> = Vec::new();
    while chosen.len() < 4 {
        rng ^= rng >> 12;
        rng ^= rng << 25;
        rng ^= rng >> 27;
        let idx = (rng.wrapping_mul(0x2545_F491_4F6C_DD1D) as usize) % space.len();
        if !chosen.contains(&idx) {
            chosen.push(idx);
        }
    }
    chosen.sort();
    assert_eq!(positions, chosen);
}
