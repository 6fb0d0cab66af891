use lsap::{normalize, Cost, LSAPError, Matching};

fn finite(values: &[i64]) -> Vec<Cost> {
    values.iter().map(|x| Cost::Finite(*x)).collect()
}

#[test]
fn normalize_copies_a_wide_matrix() {
    assert_eq!(normalize(2, 3, &finite(&[1, 2, 3, 4, 5, 6]), false), Ok(vec![1, 2, 3, 4, 5, 6]));
    assert_eq!(normalize(2, 2, &finite(&[1, 2, 3, 4]), false), Ok(vec![1, 2, 3, 4]));
}

#[test]
fn normalize_negates_when_maximizing() {
    assert_eq!(
        normalize(2, 3, &finite(&[1, -2, 3, 0, 5, -6]), true),
        Ok(vec![-1, 2, -3, 0, -5, 6])
    );
}

#[test]
fn normalize_exchanges_rows_and_columns_of_a_tall_matrix() {
    assert_eq!(normalize(3, 2, &finite(&[1, 2, 3, 4, 5, 6]), false), Ok(vec![1, 3, 5, 2, 4, 6]));
    assert_eq!(
        normalize(3, 2, &finite(&[1, 2, 3, 4, 5, 6]), true),
        Ok(vec![-1, -3, -5, -2, -4, -6])
    );
}

#[test]
fn normalize_negates_the_least_entry_exactly() {
    assert_eq!(normalize(1, 1, &finite(&[i64::MIN]), true), Ok(vec![1i128 << 63]));
    assert_eq!(normalize(1, 1, &finite(&[i64::MAX]), true), Ok(vec![-(i64::MAX as i128)]));
}

#[test]
fn normalize_of_an_empty_matrix_is_empty() {
    assert_eq!(normalize(0, 5, &Vec::new(), false), Ok(vec![]));
    assert_eq!(normalize(5, 0, &Vec::new(), true), Ok(vec![]));
}

#[test]
fn normalize_rejects_entries_that_are_not_finite() {
    for bad in [Cost::NaN, Cost::PosInfinity, Cost::NegInfinity] {
        let mut cost = finite(&[1, 2, 3, 4]);
        cost[3] = bad;
        assert_eq!(normalize(2, 2, &cost, false), Err(LSAPError::Invalid));
        assert_eq!(normalize(4, 1, &cost, true), Err(LSAPError::Invalid));
    }
}

#[test]
fn first_path_ends_at_the_nearest_column() {
    let matching = Matching::new(2, 3, vec![4, 1, 3, 2, 0, 5]);
    let (tree, sink) = matching.augmenting_path().unwrap();
    assert_eq!(sink, 1);
    assert_eq!(tree.min_val, 1);
    assert_eq!(tree.path[1], Some(0));
    assert_eq!(tree.spc, vec![Some(4), Some(1), Some(3)]);
    assert_eq!(tree.sr, vec![true, false]);
    assert_eq!(tree.sc, vec![false, true, false]);
    // the search itself changes nothing
    assert_eq!(matching.assigned, 0);
    assert_eq!(matching.row4col, vec![None, None, None]);
}

#[test]
fn path_leads_through_a_taken_column() {
    let mut matching = Matching::new(2, 2, vec![1, 2, 1, 5]);
    assert_eq!(matching.assign_next_row(), Ok(()));
    let (tree, sink) = matching.augmenting_path().unwrap();
    assert_eq!(sink, 1);
    assert_eq!(tree.min_val, 2);
    assert_eq!(tree.path, vec![Some(1), Some(0)]);
    assert_eq!(tree.spc, vec![Some(1), Some(2)]);
    assert_eq!(tree.sr, vec![true, true]);
    assert_eq!(tree.sc, vec![true, true]);
}

#[test]
fn among_equally_near_columns_the_path_ends_at_a_free_one() {
    // Row 1 is as near to the taken column 0 as to the free column 1.
    let mut matching = Matching::new(2, 2, vec![3, 3, 3, 3]);
    assert_eq!(matching.assign_next_row(), Ok(()));
    assert_eq!(matching.col4row, vec![Some(0), None]);
    let (tree, sink) = matching.augmenting_path().unwrap();
    assert_eq!(sink, 1);
    assert_eq!(tree.min_val, 3);
    assert_eq!(tree.sc, vec![false, true]);
}

#[test]
fn no_path_where_every_column_is_taken() {
    let mut matching = Matching::new(3, 2, vec![1, 2, 3, 4, 5, 6]);
    assert_eq!(matching.assign_next_row(), Ok(()));
    assert_eq!(matching.assign_next_row(), Ok(()));
    assert!(matching.augmenting_path().is_none());
    assert_eq!(matching.assign_next_row(), Err(LSAPError::Infeasible));
    assert_eq!(matching.assigned, 2);
}

#[test]
fn cell_reads_the_matrix_by_rows() {
    let matching = Matching::new(2, 3, vec![4, 1, 3, 2, 0, 5]);
    assert_eq!(matching.cell(0, 2), 3);
    assert_eq!(matching.cell(1, 0), 2);
}
