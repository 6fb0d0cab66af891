use lsap::{make_jianma_table_lsap, Candidate, LSAPError};

fn candidate(bianma: usize, zi: usize, weight: u64) -> Candidate {
    Candidate { bianma, zi, weight }
}

#[test]
fn table_takes_the_heaviest_choice() {
    // Two codes, three characters. Code 0 suits characters 0 and 1, code 1 suits character 0.
    let candidates = vec![candidate(0, 0, 9000), candidate(0, 1, 8500), candidate(1, 0, 8800)];
    let (total, table) = make_jianma_table_lsap(2, 3, &candidates).unwrap();
    assert_eq!(total, 17300);
    assert_eq!(table, vec![candidate(0, 1, 8500), candidate(1, 0, 8800)]);
}

#[test]
fn table_leaves_out_pairs_without_a_candidate() {
    // Both codes suit character 0 only: one of them goes without.
    let candidates = vec![candidate(0, 0, 10), candidate(1, 0, 20)];
    let (total, table) = make_jianma_table_lsap(2, 2, &candidates).unwrap();
    assert_eq!(total, 20);
    assert_eq!(table, vec![candidate(1, 0, 20)]);
}

#[test]
fn table_with_more_codes_than_characters() {
    let candidates = vec![candidate(0, 0, 5), candidate(1, 0, 7), candidate(2, 1, 3), candidate(1, 1, 4)];
    let (total, table) = make_jianma_table_lsap(3, 2, &candidates).unwrap();
    assert_eq!(total, 10);
    assert_eq!(table, vec![candidate(1, 0, 7), candidate(2, 1, 3)]);
}

#[test]
fn table_counts_the_later_of_two_candidates_for_one_pair() {
    let candidates = vec![candidate(0, 0, 50), candidate(0, 0, 8)];
    assert_eq!(make_jianma_table_lsap(1, 1, &candidates), Ok((8, vec![candidate(0, 0, 8)])));
}

#[test]
fn table_of_nothing_is_empty() {
    assert_eq!(make_jianma_table_lsap(0, 0, &Vec::new()), Ok((0, vec![])));
    assert_eq!(make_jianma_table_lsap(2, 2, &Vec::new()), Ok((0, vec![])));
    assert_eq!(make_jianma_table_lsap(0, 3, &Vec::new()), Ok((0, vec![])));
}

#[test]
fn table_drops_candidates_of_weight_zero() {
    let candidates = vec![candidate(0, 0, 0), candidate(1, 1, 6)];
    assert_eq!(make_jianma_table_lsap(2, 2, &candidates), Ok((6, vec![candidate(1, 1, 6)])));
}

#[test]
fn table_rejects_a_weight_beyond_exact_counting() {
    let candidates = vec![candidate(0, 0, u64::MAX), candidate(1, 1, 6)];
    assert_eq!(make_jianma_table_lsap(2, 2, &candidates), Err(LSAPError::Invalid));
    let candidates = vec![candidate(0, 0, i64::MAX as u64), candidate(1, 1, 6)];
    assert_eq!(
        make_jianma_table_lsap(2, 2, &candidates),
        Ok((i64::MAX as u128 + 6, vec![candidate(0, 0, i64::MAX as u64), candidate(1, 1, 6)]))
    );
}
