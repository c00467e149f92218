use gemsleuth::judge::judge;
use gemsleuth::model::Settings;
use gemsleuth::optimal::Optimizer;
use gemsleuth::solver::enumerate_space;
use std::collections::HashMap;

// Independent exhaustive oracle: no bounds, symmetries, or optimized feedback table.
fn brute(space: &[Vec<u8>], c: &[u16], memo: &mut HashMap<Vec<u16>, usize>) -> usize {
    if c.len() == 1 {
        return 1;
    }
    if let Some(&cost) = memo.get(c) {
        return cost;
    }
    let mut best = usize::MAX;
    for guess in space {
        let mut buckets = HashMap::<(u8, u8), Vec<u16>>::new();
        for &id in c {
            let f = judge(guess, &space[id as usize]);
            if f.0 as usize != guess.len() {
                buckets.entry(f).or_default().push(id);
            }
        }
        if buckets.values().any(|b| b.len() == c.len()) {
            continue;
        }
        let cost = c.len() + buckets.values().map(|b| brute(space, b, memo)).sum::<usize>();
        best = best.min(cost);
    }
    memo.insert(c.to_vec(), best);
    best
}

fn small() -> Settings {
    Settings { colors: 3, slots: 2, repeats: true }
}

fn subset(mask: usize, n: usize) -> Vec<u16> {
    (0..n).filter(|i| mask & (1 << i) != 0).map(|i| i as u16).collect()
}

#[test]
fn exact_search_matches_unpruned_oracle_for_every_small_subset() {
    let s = small();
    let space = enumerate_space(&s);
    let mut oracle = HashMap::new();
    let mut solver = Optimizer::new(s);
    for mask in 1usize..(1 << space.len()) {
        let c = subset(mask, space.len());
        let expected = brute(&space, &c, &mut oracle);
        solver.tighten_one_ply(&c);
        assert!(solver.lower(&c) <= expected);
        let result = solver.solve(&c, 1000).unwrap().unwrap();
        assert_eq!(result.total, expected, "{c:?}");
    }
}

#[test]
fn cost_threshold_is_strict_and_an_interruption_is_not_a_proof() {
    let s = small();
    let mut solver = Optimizer::new(s);
    let c: Vec<u16> = (0..9).collect();
    let optimum = brute(&enumerate_space(&s), &c, &mut HashMap::new());
    assert!(solver.solve(&c, optimum).unwrap().is_none());
    assert_eq!(solver.solve(&c, optimum + 1).unwrap().unwrap().total, optimum);
    let mut interrupted = Optimizer::new(s);
    interrupted.deadline = Some(std::time::Instant::now());
    assert!(interrupted.solve(&c, 1000).is_err());
    assert!(!interrupted.is_proven(&c));
}

#[test]
fn checkpoints_resume_proofs_and_reject_corruption() {
    let settings = small();
    let mut solver = Optimizer::new(settings);
    let root = solver.root();
    let node = solver.solve(&root, 1000).unwrap().unwrap();
    let bytes = solver.checkpoint_bytes();
    // Writing the same state twice gives the same snapshot.
    assert_eq!(solver.checkpoint_bytes(), bytes);
    let mut resumed = Optimizer::new(settings);
    resumed.load_checkpoint_bytes(&bytes).unwrap();
    assert!(resumed.is_proven(&root));
    assert_eq!(resumed.solve(&root, 1000).unwrap().unwrap().total, node.total);
    let (policy, exported) = resumed.export_policy().unwrap();
    let mut verifier = Optimizer::new(settings);
    verifier.seed_policy(&policy).unwrap();
    assert_eq!(verifier.bounds(&root).1.unwrap().total, exported.total);
    let mut corrupted = bytes.clone();
    corrupted[20] ^= 1;
    assert!(resumed.load_checkpoint_bytes(&corrupted).is_err());
    assert!(resumed.is_proven(&root));
}

#[test]
fn four_slot_partitions_match_oracle_including_duplicate_colors() {
    let s = Settings::default();
    let space = enumerate_space(&s);
    let mut solver = Optimizer::new(s);
    let mut oracle = HashMap::new();
    for c in [vec![0, 1, 6, 7, 36, 37, 216, 217], vec![51, 97, 189, 300, 532, 985, 1295]] {
        let expected = brute(&space, &c, &mut oracle);
        assert_eq!(solver.solve(&c, 1000).unwrap().unwrap().total, expected);
    }
}

#[test]
fn strict_bounds_are_sound_without_any_exact_cache_entries() {
    let s = small();
    let space = enumerate_space(&s);
    let mut oracle = HashMap::new();
    for mask in 1usize..(1 << space.len()) {
        let c = subset(mask, space.len());
        let optimum = brute(&space, &c, &mut oracle);
        let mut solver = Optimizer::new(s);
        assert!(solver.solve(&c, optimum).unwrap().is_none());
        assert!(!solver.is_proven(&c) || solver.bounds(&c).1.unwrap().total == optimum);
        assert_eq!(solver.solve(&c, optimum + 1).unwrap().unwrap().total, optimum);
    }
}

#[test]
fn new_optimizer_knows_nothing_and_roots_at_the_full_space() {
    let solver = Optimizer::new(small());
    assert_eq!(solver.root(), (0..9).collect::<Vec<u16>>());
    assert_eq!(solver.entries(), 0);
    assert_eq!(solver.bounds(&[0, 1, 2]), (solver.lower(&[0, 1, 2]), None));
    assert!(!solver.is_proven(&solver.root()));
}

#[test]
fn singleton_and_pair_states_cost_one_and_three() {
    let mut solver = Optimizer::new(small());
    let one = solver.solve(&[4], 1000).unwrap().unwrap();
    assert_eq!((one.guess, one.total, one.worst), (4, 1, 1));
    let two = solver.solve(&[2, 5], 1000).unwrap().unwrap();
    assert_eq!((two.guess, two.total, two.worst), (2, 3, 2));
    assert!(solver.is_proven(&[2, 5]));
    assert!(solver.solve(&[2, 5], 3).unwrap().is_none());
}

#[test]
fn exported_policy_lists_states_in_id_order() {
    let mut solver = Optimizer::new(small());
    let root = solver.root();
    solver.solve(&root, 1000).unwrap().unwrap();
    let (policy, node) = solver.export_policy().unwrap();
    assert!(policy.ends_with('\n'));
    let keys: Vec<Vec<u16>> = policy
        .lines()
        .map(|line| {
            let fields: Vec<&str> = line.split(';').collect();
            assert_eq!(fields.len(), 3);
            fields[0].split(',').map(|s| s.parse().unwrap()).collect()
        })
        .collect();
    assert!(keys.windows(2).all(|w| w[0] < w[1]));
    assert!(keys.contains(&root));
    assert!(policy.contains(&format!("0,1,2,3,4,5,6,7,8;{};{}\n", node.guess, node.worst)));
}

#[test]
fn export_without_strategies_reports_missing_strategy() {
    let solver = Optimizer::new(small());
    assert_eq!(solver.export_policy().unwrap_err(), "missing strategy");
}

#[test]
fn seeding_reports_each_kind_of_bad_policy() {
    let mut solver = Optimizer::new(small());
    assert_eq!(solver.seed_policy("0,1;2").unwrap_err(), "invalid policy row");
    assert_eq!(solver.seed_policy("0,x;2;1").unwrap_err(), "invalid id");
    assert_eq!(solver.seed_policy("0,1;y;1").unwrap_err(), "invalid guess");
    assert_eq!(solver.seed_policy("0,1;9;1").unwrap_err(), "guess out of range");
    assert_eq!(solver.seed_policy("0,1;0;1\n").unwrap_err(), "incomplete policy");
    // Code 4 (two of colour 1) splits the full space into {0, 2, 6, 8} and
    // {1, 3, 5, 7}; played again on the first, it cannot tell them apart.
    assert_eq!(
        solver.seed_policy("0,1,2,3,4,5,6,7,8;4;3\n0,2,6,8;4;2\n").unwrap_err(),
        "policy makes no progress"
    );
    assert_eq!(solver.entries(), 0);
}

#[test]
fn seeding_keeps_the_cheaper_strategy() {
    let mut solver = Optimizer::new(small());
    let root = solver.root();
    let best = solver.solve(&root, 1000).unwrap().unwrap();
    let (policy, _) = solver.export_policy().unwrap();
    let mut fresh = Optimizer::new(small());
    fresh.seed_policy(&policy).unwrap();
    let seeded = fresh.bounds(&root).1.unwrap();
    assert_eq!((seeded.guess, seeded.total, seeded.worst), (best.guess, best.total, best.worst));
    // A later row for the same state replaces an earlier one.
    let mut twice = policy.clone();
    twice.push_str(&policy);
    fresh.seed_policy(&twice).unwrap();
    assert_eq!(fresh.bounds(&root).1.unwrap().total, best.total);
}

#[test]
fn refining_keeps_a_complete_incumbent() {
    let mut solver = Optimizer::new(small());
    let root = solver.root();
    let best = solver.solve(&root, 1000).unwrap().unwrap();
    let (policy, _) = solver.export_policy().unwrap();
    let mut fresh = Optimizer::new(small());
    fresh.seed_policy(&policy).unwrap();
    fresh.refine_incumbent().unwrap();
    let (_, node) = fresh.export_policy().unwrap();
    assert_eq!(node.total, best.total);
}

// A complete but naive policy: every state guesses its first candidate.
fn naive_policy(space: &[Vec<u8>], c: &[u16], text: &mut String, states: &mut Vec<Vec<u16>>) {
    if c.len() < 2 {
        return;
    }
    let ids: Vec<String> = c.iter().map(|id| id.to_string()).collect();
    text.push_str(&format!("{};{};0\n", ids.join(","), c[0]));
    states.push(c.to_vec());
    let guess = &space[c[0] as usize];
    let mut buckets: Vec<((u8, u8), Vec<u16>)> = Vec::new();
    for &id in c {
        let f = judge(guess, &space[id as usize]);
        if f.0 as usize == guess.len() {
            continue;
        }
        match buckets.iter_mut().find(|(g, _)| *g == f) {
            Some((_, b)) => b.push(id),
            None => buckets.push((f, vec![id])),
        }
    }
    for (_, b) in &buckets {
        naive_policy(space, b, text, states);
    }
}

// What the naive policy costs from `c`: one submission per candidate per step.
fn naive_total(space: &[Vec<u8>], c: &[u16]) -> usize {
    let guess = &space[c[0] as usize];
    let mut buckets: Vec<((u8, u8), Vec<u16>)> = Vec::new();
    for &id in c {
        let f = judge(guess, &space[id as usize]);
        if f.0 as usize == guess.len() {
            continue;
        }
        match buckets.iter_mut().find(|(g, _)| *g == f) {
            Some((_, b)) => b.push(id),
            None => buckets.push((f, vec![id])),
        }
    }
    c.len() + buckets.iter().map(|(_, b)| naive_total(space, b)).sum::<usize>()
}

#[test]
fn seeding_records_a_strategy_for_every_state_the_policy_visits() {
    let s = small();
    let space = enumerate_space(&s);
    let mut solver = Optimizer::new(s);
    let root = solver.root();
    let mut text = String::new();
    let mut states = Vec::new();
    naive_policy(&space, &root, &mut text, &mut states);
    assert!(states.len() > 3);
    solver.seed_policy(&text).unwrap();
    let mut singles = 0;
    for c in &states {
        let node = solver.bounds(c).1.expect("every visited state gets a strategy");
        assert_eq!(node.guess, c[0], "{c:?}");
        assert_eq!(node.total, naive_total(&space, c), "{c:?}");
        let guess = &space[c[0] as usize];
        for &id in c {
            let f = judge(guess, &space[id as usize]);
            let alone = c.iter().filter(|&&other| judge(guess, &space[other as usize]) == f).count() == 1;
            if alone && f.0 as usize != guess.len() {
                let leaf = solver.bounds(&[id]).1.expect("a single candidate reached is recorded too");
                assert_eq!((leaf.guess, leaf.total, leaf.worst), (id, 1, 1));
                singles += 1;
            }
        }
    }
    assert!(singles > 0);
}

#[test]
fn refining_makes_every_state_of_the_incumbent_optimal() {
    let s = small();
    let space = enumerate_space(&s);
    let mut solver = Optimizer::new(s);
    let root = solver.root();
    let mut text = String::new();
    let mut states = Vec::new();
    naive_policy(&space, &root, &mut text, &mut states);
    solver.seed_policy(&text).unwrap();
    let seeded: Vec<usize> = states.iter().map(|c| solver.bounds(c).1.unwrap().total).collect();
    solver.refine_incumbent().unwrap();
    let mut oracle = HashMap::new();
    let mut improved = false;
    for (c, before) in states.iter().zip(seeded) {
        let after = solver.bounds(c).1.unwrap().total;
        assert!(after <= before, "{c:?}");
        if c.len() > 2 {
            assert_eq!(after, brute(&space, c, &mut oracle), "{c:?}");
            improved |= after < before;
        }
    }
    assert!(improved);
}

#[test]
fn checkpoint_layout_and_refusals() {
    let mut solver = Optimizer::new(small());
    solver.solve(&[2, 5], 1000).unwrap().unwrap();
    let bytes = solver.checkpoint_bytes();
    assert_eq!(&bytes[..8], b"GSEXACT1");
    assert_eq!(&bytes[8..10], &[3, 2]);
    assert_eq!(&bytes[10..18], &1u64.to_le_bytes());
    // One entry: size 2, ids 2 and 5, lower 3, a strategy (guess 2, total 3, worst 2).
    assert_eq!(&bytes[18..37], &[2, 0, 2, 0, 5, 0, 3, 0, 0, 0, 1, 2, 0, 3, 0, 0, 0, 2, 0]);
    assert_eq!(bytes.len(), 18 + 19 + 8);
    let mut other = Optimizer::new(small());
    assert_eq!(other.load_checkpoint_bytes(&bytes[..20]).unwrap_err(), "invalid checkpoint");
    let mut bad_sum = bytes.clone();
    let last = bad_sum.len() - 1;
    bad_sum[last] ^= 0xff;
    assert_eq!(other.load_checkpoint_bytes(&bad_sum).unwrap_err(), "checkpoint checksum mismatch");
    let mut wrong_rules = Optimizer::new(Settings { colors: 2, slots: 2, repeats: true });
    assert_eq!(wrong_rules.load_checkpoint_bytes(&bytes).unwrap_err(), "checkpoint rules mismatch");
    other.load_checkpoint_bytes(&bytes).unwrap();
    assert!(other.is_proven(&[2, 5]));
    assert_eq!(other.entries(), 1);
}

#[test]
fn a_found_strategy_is_followed_within_its_total() {
    let mut solver = Optimizer::new(small());
    let root = solver.root();
    let found = solver.solve(&root, 1000).unwrap().unwrap();
    let (_, followed) = solver.export_policy().unwrap();
    assert_eq!(followed.guess, found.guess);
    assert!(followed.total <= found.total);
    assert!(followed.worst <= found.worst);
    let pair = [2u16, 7];
    let node = solver.solve(&pair, 1000).unwrap().unwrap();
    assert_eq!((node.guess, node.total, node.worst), (2, 3, 2));
}

#[test]
fn counting_bound_never_exceeds_the_optimum() {
    let s = small();
    let space = enumerate_space(&s);
    let mut oracle = HashMap::new();
    let fresh = Optimizer::new(s);
    assert_eq!(fresh.lower(&[0, 1, 2]), 5);
    for mask in 1usize..(1 << space.len()) {
        let c = subset(mask, space.len());
        let optimum = brute(&space, &c, &mut oracle);
        assert!(fresh.lower(&c) <= optimum, "{c:?}");
    }
}

#[test]
fn a_new_optimizer_roots_at_every_code_of_the_game() {
    let solver = Optimizer::new(Settings::default());
    let root = solver.root();
    assert_eq!(root.len(), 1296);
    assert_eq!(root, (0..1296u16).collect::<Vec<u16>>());
    assert_eq!(solver.entries(), 0);
}

#[test]
fn one_ply_tightening_raises_the_bound_once() {
    let s = small();
    let space = enumerate_space(&s);
    let c: Vec<u16> = vec![0, 1, 2, 4];
    let mut solver = Optimizer::new(s);
    let before = solver.lower(&c);
    solver.tighten_one_ply(&c);
    let after = solver.lower(&c);
    assert!(before <= after);
    assert!(after <= brute(&space, &c, &mut HashMap::new()));
    assert_eq!(solver.entries(), 1);
    assert!(solver.bounds(&c).1.is_none());
    // A second call, or a set of two, changes nothing.
    solver.tighten_one_ply(&c);
    assert_eq!(solver.lower(&c), after);
    solver.tighten_one_ply(&[3, 5]);
    assert_eq!(solver.entries(), 1);
}

#[test]
fn a_found_strategy_leaves_the_set_proven() {
    let s = small();
    let space = enumerate_space(&s);
    let c: Vec<u16> = vec![0, 2, 4, 6, 8];
    let mut solver = Optimizer::new(s);
    let node = solver.solve(&c, 1000).unwrap().unwrap();
    assert!(solver.is_proven(&c));
    assert_eq!(solver.bounds(&c).0, node.total);
    assert_eq!(node.total, brute(&space, &c, &mut HashMap::new()));
    let mut below = Optimizer::new(s);
    assert!(below.solve(&c, node.total).unwrap().is_none());
    assert!(below.bounds(&c).0 >= node.total);
}

#[test]
fn an_empty_policy_is_incomplete_and_records_nothing() {
    let mut solver = Optimizer::new(Settings::default());
    assert_eq!(solver.seed_policy("").unwrap_err(), "incomplete policy");
    assert_eq!(solver.entries(), 0);
}

#[test]
fn every_one_byte_corruption_of_a_checkpoint_is_refused() {
    let mut solver = Optimizer::new(small());
    solver.solve(&[0, 1, 2, 4], 1000).unwrap().unwrap();
    let bytes = solver.checkpoint_bytes();
    let mut loader = Optimizer::new(small());
    for i in 0..bytes.len() - 8 {
        for delta in [1u8, 0x80, 0xff] {
            let mut corrupted = bytes.clone();
            corrupted[i] ^= delta;
            assert!(loader.load_checkpoint_bytes(&corrupted).is_err(), "byte {i}");
        }
    }
    assert_eq!(loader.entries(), 0);
}

#[test]
fn a_proven_set_gives_back_its_strategy() {
    let mut solver = Optimizer::new(Settings::default());
    let c: Vec<u16> = vec![1036, 1294, 1295];
    let node = solver.solve(&c, 1000).unwrap().unwrap();
    assert_eq!((node.total, node.worst), (5, 2));
    assert!(c.contains(&node.guess));
    assert!(solver.is_proven(&c));
    let again = solver.solve(&c, 1000).unwrap().unwrap();
    assert_eq!((again.guess, again.total, again.worst), (node.guess, node.total, node.worst));
}

#[test]
fn the_whole_small_space_is_solved_exactly() {
    let s = small();
    let space = enumerate_space(&s);
    let mut solver = Optimizer::new(s);
    let root = solver.root();
    let optimum = brute(&space, &root, &mut HashMap::new());
    solver.tighten_one_ply(&root);
    assert!(solver.lower(&root) <= optimum);
    let node = solver.solve(&root, 1000).unwrap().unwrap();
    assert_eq!(node.total, optimum);
    assert!(solver.is_proven(&root));
}
