use gemsleuth::judge::judge;

#[test]
fn all_exact() {
    assert_eq!(judge(&[1, 2, 3, 4], &[1, 2, 3, 4]), (4, 0));
}

#[test]
fn all_miss() {
    assert_eq!(judge(&[0, 0, 0, 0], &[1, 1, 1, 1]), (0, 0));
}

#[test]
fn repeated_multiset_counting() {
    // guess 4,4,2,1 against 2,2,2,4: one exact (slot 3), overlap min(2,1)+min(1,3) = 2.
    assert_eq!(judge(&[4, 4, 2, 1], &[2, 2, 2, 4]), (1, 1));
    // Repeated gems count on the smaller side.
    assert_eq!(judge(&[2, 4, 2, 2], &[2, 2, 2, 4]), (2, 2));
}

#[test]
fn real_puzzle_records() {
    assert_eq!(judge(&[3, 1, 2, 0], &[2, 2, 2, 4]), (1, 0));
    assert_eq!(judge(&[3, 1, 2, 5], &[2, 2, 2, 4]), (1, 0));
}

#[test]
fn partial_only_and_three_slots() {
    assert_eq!(judge(&[0, 0, 0, 0], &[0, 0, 0, 1]), (3, 0));
    assert_eq!(judge(&[0, 1, 2], &[2, 0, 1]), (0, 3));
}

#[test]
fn judge_is_symmetric_on_examples() {
    let codes: [[u8; 4]; 5] = [[4, 4, 2, 1], [2, 2, 2, 4], [0, 1, 2, 3], [5, 5, 0, 0], [3, 1, 2, 5]];
    for a in &codes {
        for b in &codes {
            assert_eq!(judge(a, b), judge(b, a));
        }
    }
}

#[test]
fn judge_self_is_all_exact() {
    assert_eq!(judge(&[5, 3, 5, 3, 0, 1], &[5, 3, 5, 3, 0, 1]), (6, 0));
    assert_eq!(judge(&[], &[]), (0, 0));
}

#[test]
fn judge_counts_only_shared_colours_once() {
    // guess 1,1,1,2 vs 2,1,3,3: exact slot 2; colour 1 min(3,1)=1, colour 2 min(1,1)=1.
    assert_eq!(judge(&[1, 1, 1, 2], &[2, 1, 3, 3]), (1, 1));
}
