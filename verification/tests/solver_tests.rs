use gemsleuth::judge::judge;
use gemsleuth::model::{Record, Settings};
use gemsleuth::solver::{enumerate_space, filter_candidates, suspect_records};

#[test]
fn repeats_space_size() {
    assert_eq!(enumerate_space(&Settings { colors: 6, slots: 4, repeats: true }).len(), 1296);
    assert_eq!(enumerate_space(&Settings { colors: 8, slots: 6, repeats: true }).len(), 262_144);
    assert_eq!(enumerate_space(&Settings { colors: 4, slots: 3, repeats: true }).len(), 64);
}

#[test]
fn repeats_space_odometer_order() {
    let s = enumerate_space(&Settings { colors: 6, slots: 4, repeats: true });
    assert_eq!(s[0], vec![0, 0, 0, 0]);
    assert_eq!(s[1], vec![0, 0, 0, 1]);
    assert_eq!(s[6], vec![0, 0, 1, 0]);
    assert_eq!(s[1295], vec![5, 5, 5, 5]);
}

#[test]
fn permutation_space() {
    let s = enumerate_space(&Settings { colors: 6, slots: 4, repeats: false });
    assert_eq!(s.len(), 360);
    assert_eq!(s[0], vec![0, 1, 2, 3]);
    assert_eq!(s[1], vec![0, 1, 2, 4]);
    assert_eq!(s[359], vec![5, 4, 3, 2]);
    assert!(s.iter().all(|c| c.iter().collect::<std::collections::HashSet<_>>().len() == 4));
}

#[test]
fn permutation_space_8_colors() {
    assert_eq!(enumerate_space(&Settings { colors: 8, slots: 4, repeats: false }).len(), 1680);
}

fn ab_records() -> Vec<Record> {
    vec![Record::new(vec![3, 1, 2, 0], 1, 0), Record::new(vec![3, 1, 2, 5], 1, 0)]
}

#[test]
fn filter_empty_records_is_full_space() {
    assert_eq!(filter_candidates(&Settings::default(), &[]).len(), 1296);
}

#[test]
fn filter_real_two_records_leaves_24() {
    let cands = filter_candidates(&Settings::default(), &ab_records());
    assert_eq!(cands.len(), 24);
    assert!(cands.iter().any(|c| c == &vec![2, 2, 2, 4]));
    assert!(cands.iter().any(|c| c == &vec![1, 1, 1, 1]));
    assert_eq!(cands[0], vec![1, 1, 1, 1]);
    assert!(cands.iter().all(|c| judge(&[3, 1, 2, 0], c) == (1, 0) && judge(&[3, 1, 2, 5], c) == (1, 0)));
}

#[test]
fn disabled_record_ignored() {
    let mut r = Record::new(vec![0, 1, 2, 3], 4, 0);
    r.enabled = false;
    assert_eq!(filter_candidates(&Settings::default(), &[r]).len(), 1296);
}

#[test]
fn filter_contradiction_is_empty() {
    let mut rs = ab_records();
    rs.push(Record::new(vec![0, 1, 2, 3], 4, 0));
    assert!(filter_candidates(&Settings::default(), &rs).is_empty());
}

#[test]
fn golden_puzzle_has_a_unique_answer() {
    let rs = vec![
        Record::new(vec![3, 1, 2, 0], 1, 0),
        Record::new(vec![3, 1, 2, 5], 1, 0),
        Record::new(vec![0, 1, 2, 3], 1, 0),
        Record::new(vec![0, 0, 1, 1], 0, 0),
        Record::new(vec![4, 5, 0, 1], 0, 1),
        Record::new(vec![2, 4, 2, 2], 2, 2),
    ];
    assert_eq!(filter_candidates(&Settings::default(), &rs), vec![vec![2, 2, 2, 4]]);
}

#[test]
fn five_records_leave_two_candidates() {
    let rs = vec![
        Record::new(vec![3, 1, 2, 0], 1, 0),
        Record::new(vec![3, 1, 2, 5], 1, 0),
        Record::new(vec![0, 1, 2, 3], 1, 0),
        Record::new(vec![0, 0, 1, 1], 0, 0),
        Record::new(vec![2, 4, 2, 2], 2, 2),
    ];
    assert_eq!(filter_candidates(&Settings::default(), &rs), vec![vec![2, 2, 2, 4], vec![4, 2, 2, 2]]);
}

#[test]
fn contradiction_points_at_the_suspect_record() {
    let s = Settings::default();
    let mut rs = ab_records();
    rs.push(Record::new(vec![0, 1, 2, 3], 4, 0));
    assert_eq!(suspect_records(&s, &rs), vec![2]);
    let mut fixed = rs.clone();
    fixed[2].enabled = false;
    assert_eq!(filter_candidates(&s, &fixed).len(), 24);
    assert!(suspect_records(&s, &fixed).is_empty());
}

#[test]
fn permutation_mode_filtering() {
    let s = Settings { colors: 6, slots: 4, repeats: false };
    let rs = [Record::new(vec![0, 1, 2, 3], 2, 2)];
    let cands = filter_candidates(&s, &rs);
    assert!(!cands.is_empty());
    assert!(cands.iter().any(|c| c == &vec![1, 0, 2, 3]));
    assert!(cands.iter().all(|c| c.iter().collect::<std::collections::HashSet<_>>().len() == 4
        && judge(&[0, 1, 2, 3], c) == (2, 2)));
}
