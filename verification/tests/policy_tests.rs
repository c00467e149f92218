use gemsleuth::judge::judge;
use gemsleuth::keymap::KeyMap;
use gemsleuth::model::Settings;
use gemsleuth::policy::{lookup_table, parse_policy, verify_policy, PolicyError, PolicyMove, StrategyMode};
use gemsleuth::solver::enumerate_space;

fn id(code: &[u8]) -> usize {
    code.iter().fold(0, |n, &v| n * 6 + v as usize)
}

/// Builds a complete policy that always guesses the first remaining candidate.
fn first_candidate_policy() -> (String, usize, usize) {
    fn visit(cands: Vec<Vec<u8>>, depth: usize, rows: &mut Vec<String>, total: &mut usize) -> usize {
        let guess = cands[0].clone();
        let mut buckets: std::collections::BTreeMap<(u8, u8), Vec<Vec<u8>>> = Default::default();
        for c in &cands {
            buckets.entry(judge(&guess, c)).or_default().push(c.clone());
        }
        let mut worst = 1;
        for (fb, bucket) in buckets {
            if fb == (4, 0) {
                *total += depth;
                continue;
            }
            worst = worst.max(1 + visit(bucket, depth + 1, rows, total));
        }
        if cands.len() > 1 {
            let ids: Vec<String> = cands.iter().map(|c| id(c).to_string()).collect();
            rows.push(format!("{};{};{}", ids.join(","), id(&guess), worst));
        }
        worst
    }
    let mut rows = Vec::new();
    let mut total = 0;
    let worst = visit(enumerate_space(&Settings::default()), 1, &mut rows, &mut total);
    (rows.join("\n") + "\n", total, worst)
}

#[test]
fn independent_verifier_rejects_malformed_policies() {
    assert!(verify_policy("invalid").is_err());
    assert!(verify_policy("").is_err());
    assert_eq!(verify_policy("").unwrap_err(), "missing policy branch");
    assert_eq!(verify_policy("invalid").unwrap_err(), "invalid policy row");
    assert_eq!(verify_policy("1,x;0;2").unwrap_err(), "invalid candidate");
    assert_eq!(verify_policy("1,2;g;2").unwrap_err(), "invalid guess");
    assert_eq!(verify_policy("1,2;0;-2").unwrap_err(), "invalid steps");
    assert_eq!(verify_policy("2,1;0;2").unwrap_err(), "invalid policy values");
    assert_eq!(verify_policy("1,2;1296;2").unwrap_err(), "invalid policy values");
    assert_eq!(verify_policy("1,2;0;0").unwrap_err(), "invalid policy values");
    assert_eq!(verify_policy("1,2;0;2\n1,2;0;2").unwrap_err(), "duplicate policy state");
}

#[test]
fn independent_verifier_checks_all_answers_and_rejects_false_guarantees() {
    let (text, total, worst) = first_candidate_policy();
    assert_eq!(verify_policy(&text).unwrap(), (total, worst));
    // Promising one step at the root is false for every answer but the first.
    let mut rows: Vec<String> = text.lines().map(str::to_string).collect();
    let root = rows
        .iter_mut()
        .find(|r| r.split(';').next().unwrap().split(',').count() == 1296)
        .unwrap();
    *root = format!("{};1", root.rsplit_once(';').unwrap().0);
    assert!(verify_policy(&rows.join("\n")).is_err());
    // Dropping a branch leaves an answer uncovered.
    let short: Vec<&str> = text.lines().skip(1).collect();
    assert_eq!(verify_policy(&short.join("\n")).unwrap_err(), "missing policy branch");
}

#[test]
fn lookup_follows_the_table() {
    let (text, _, _) = first_candidate_policy();
    let table = parse_policy(&text).unwrap();
    let s = Settings::default();
    let space = enumerate_space(&s);
    match lookup_table(&s, &space, &table) {
        Some(PolicyMove::Guess { guess, steps }) => {
            assert_eq!(guess, vec![0, 0, 0, 0]);
            assert!(steps >= 2);
        }
        other => panic!("expected a guess, got {other:?}"),
    }
    assert_eq!(lookup_table(&s, &space[5..6], &table), Some(PolicyMove::Answer(vec![0, 0, 0, 5])));
}

#[test]
fn unsupported_settings_and_unknown_states_fall_back() {
    let table: KeyMap<(u16, usize)> = KeyMap::new();
    let other = Settings { repeats: false, ..Settings::default() };
    assert!(lookup_table(&other, &[vec![0, 1, 2, 3]], &table).is_none());
    assert!(lookup_table(&Settings::default(), &[], &table).is_none());
    assert!(lookup_table(&Settings::default(), &[vec![8, 0, 0, 0]], &table).is_none());
    assert!(lookup_table(&Settings::default(), &[vec![0, 0, 0, 1], vec![0, 0, 0, 2]], &table).is_none());
}

#[test]
fn policy_rows_with_carriage_returns_and_plus_signs_parse() {
    let table = parse_policy("+1,2;3;2\r\n3,4;5;+2\n").unwrap();
    assert_eq!(table.len(), 2);
    assert_eq!(table.get(&[1, 2]), Some(&(3, 2)));
    assert_eq!(table.get(&[3, 4]), Some(&(5, 2)));
    assert_eq!(table.get(&[1]), None);
    assert_eq!(parse_policy("1,2;3;2;4").err(), Some(PolicyError::InvalidRow));
}

#[test]
fn strategy_mode_defaults_to_average() {
    assert_eq!(StrategyMode::default(), StrategyMode::Average);
    assert_eq!(PolicyError::Unsolved.message(), "policy does not solve every answer");
}
