use lsap::{argsort_iter, get_assigned_cost, solve, Cost, LSAPError, Matching};

fn finite(values: &[i64]) -> Vec<Cost> {
    let mut v = Vec::new();
    for x in values {
        v.push(Cost::Finite(*x));
    }
    v
}

fn total(nc: usize, values: &[i64], rows: &[usize], cols: &[usize]) -> i128 {
    let mut sum: i128 = 0;
    for t in 0..rows.len() {
        sum += values[rows[t] * nc + cols[t]] as i128;
    }
    sum
}

/// The least (or greatest) total over every way to give each of `nr` rows a
/// column of its own, for `nr <= nc`.
fn brute_force(nr: usize, nc: usize, values: &[i64], maximize: bool) -> i128 {
    fn go(
        row: usize,
        nr: usize,
        nc: usize,
        values: &[i64],
        used: &mut Vec<bool>,
        so_far: i128,
        best: &mut Option<i128>,
        maximize: bool,
    ) {
        if row == nr {
            let better = match *best {
                None => true,
                Some(b) => {
                    if maximize {
                        so_far > b
                    } else {
                        so_far < b
                    }
                }
            };
            if better {
                *best = Some(so_far);
            }
            return;
        }
        for j in 0..nc {
            if !used[j] {
                used[j] = true;
                go(row + 1, nr, nc, values, used, so_far + values[row * nc + j] as i128, best, maximize);
                used[j] = false;
            }
        }
    }
    let mut used = vec![false; nc];
    let mut best = None;
    go(0, nr, nc, values, &mut used, 0, &mut best, maximize);
    best.unwrap()
}

fn transpose(nr: usize, nc: usize, values: &[i64]) -> Vec<i64> {
    let mut t = vec![0; nr * nc];
    for i in 0..nr {
        for j in 0..nc {
            t[j * nr + i] = values[i * nc + j];
        }
    }
    t
}

fn assert_valid(nr: usize, nc: usize, rows: &[usize], cols: &[usize]) {
    assert_eq!(rows.len(), nr.min(nc));
    assert_eq!(cols.len(), nr.min(nc));
    for a in 0..rows.len() {
        assert!(rows[a] < nr);
        assert!(cols[a] < nc);
        for b in (a + 1)..rows.len() {
            assert!(rows[a] < rows[b]);
            assert_ne!(cols[a], cols[b]);
        }
    }
}

struct Lcg(u64);

impl Lcg {
    fn next(&mut self, span: i64) -> i64 {
        self.0 = self.0.wrapping_mul(6364136223846793005).wrapping_add(1442695040888963407);
        ((self.0 >> 33) as i64) % span
    }
}

#[test]
fn no_rows_gives_the_empty_pairing() {
    assert_eq!(solve(0, 3, &Vec::new(), false), Ok((vec![], vec![])));
    assert_eq!(solve(0, 0, &Vec::new(), true), Ok((vec![], vec![])));
}

#[test]
fn no_columns_gives_the_empty_pairing() {
    assert_eq!(solve(3, 0, &Vec::new(), false), Ok((vec![], vec![])));
    assert_eq!(get_assigned_cost(3, 0, &Vec::new(), false), Ok(0));
}

#[test]
fn single_entry() {
    assert_eq!(solve(1, 1, &finite(&[7]), false), Ok((vec![0], vec![0])));
    assert_eq!(get_assigned_cost(1, 1, &finite(&[-7]), true), Ok(-7));
}

#[test]
fn constant_matrix_gives_the_identity() {
    for n in 1..7usize {
        for c in [-3i64, 0, 5] {
            let cost = finite(&vec![c; n * n]);
            let expected: Vec<usize> = (0..n).collect();
            assert_eq!(solve(n, n, &cost, false), Ok((expected.clone(), expected.clone())));
            assert_eq!(solve(n, n, &cost, true), Ok((expected.clone(), expected)));
        }
    }
}

#[test]
fn three_by_three_scenario() {
    let values = [4, 1, 3, 2, 0, 5, 3, 2, 2];
    let cost = finite(&values);
    let (rows, cols) = solve(3, 3, &cost, false).unwrap();
    assert_valid(3, 3, &rows, &cols);
    assert_eq!(total(3, &values, &rows, &cols), 5);
    assert_eq!(brute_force(3, 3, &values, false), 5);
    assert_eq!(rows, vec![0, 1, 2]);
    assert_eq!(cols, vec![1, 0, 2]);
    assert_eq!(get_assigned_cost(3, 3, &cost, false), Ok(5));
}

#[test]
fn three_by_three_scenario_maximized() {
    let values = [4, 1, 3, 2, 0, 5, 3, 2, 2];
    let cost = finite(&values);
    assert_eq!(get_assigned_cost(3, 3, &cost, true), Ok(11));
    assert_eq!(solve(3, 3, &cost, true), Ok((vec![0, 1, 2], vec![0, 2, 1])));
}

#[test]
fn matches_brute_force_on_small_square_matrices() {
    let mut rng = Lcg(1);
    for round in 0..200 {
        let values: Vec<i64> = (0..9).map(|_| rng.next(if round % 2 == 0 { 4 } else { 1000 })).collect();
        for maximize in [false, true] {
            let (rows, cols) = solve(3, 3, &finite(&values), maximize).unwrap();
            assert_valid(3, 3, &rows, &cols);
            assert_eq!(total(3, &values, &rows, &cols), brute_force(3, 3, &values, maximize));
        }
    }
}

#[test]
fn matches_brute_force_on_wide_matrices() {
    let mut rng = Lcg(2);
    for round in 0..200 {
        let values: Vec<i64> = (0..12).map(|_| rng.next(if round % 2 == 0 { 3 } else { 500 })).collect();
        for maximize in [false, true] {
            let (rows, cols) = solve(3, 4, &finite(&values), maximize).unwrap();
            assert_valid(3, 4, &rows, &cols);
            assert_eq!(total(4, &values, &rows, &cols), brute_force(3, 4, &values, maximize));
            assert_eq!(
                get_assigned_cost(3, 4, &finite(&values), maximize),
                Ok(brute_force(3, 4, &values, maximize))
            );
        }
    }
}

#[test]
fn matches_brute_force_on_tall_matrices() {
    let mut rng = Lcg(3);
    for round in 0..200 {
        let values: Vec<i64> = (0..20).map(|_| rng.next(if round % 2 == 0 { 3 } else { 500 })).collect();
        let wide = transpose(5, 4, &values);
        for maximize in [false, true] {
            let (rows, cols) = solve(5, 4, &finite(&values), maximize).unwrap();
            assert_valid(5, 4, &rows, &cols);
            assert_eq!(total(4, &values, &rows, &cols), brute_force(4, 5, &wide, maximize));
        }
    }
}

#[test]
fn wide_matrix_pairs_every_row() {
    let values = [10, 2, 8, 4, 3, 9, 1, 7];
    let (rows, cols) = solve(2, 4, &finite(&values), false).unwrap();
    assert_eq!(rows, vec![0, 1]);
    assert_eq!(cols, vec![1, 2]);
    assert_eq!(get_assigned_cost(2, 4, &finite(&values), false), Ok(3));
}

#[test]
fn tall_matrix_mirrors_the_wide_one() {
    let values = [10, 2, 8, 4, 3, 9, 1, 7];
    let tall = transpose(2, 4, &values);
    let (rows, cols) = solve(4, 2, &finite(&tall), false).unwrap();
    assert_eq!(rows, vec![1, 2]);
    assert_eq!(cols, vec![0, 1]);
    assert_eq!(get_assigned_cost(4, 2, &finite(&tall), false), Ok(3));
}

#[test]
fn tall_matrix_mirrors_the_wide_one_in_general() {
    let mut rng = Lcg(4);
    for _ in 0..100 {
        let values: Vec<i64> = (0..8).map(|_| rng.next(6)).collect();
        let tall = transpose(2, 4, &values);
        for maximize in [false, true] {
            let (rows, cols) = solve(2, 4, &finite(&values), maximize).unwrap();
            let (trows, tcols) = solve(4, 2, &finite(&tall), maximize).unwrap();
            let mut mirrored: Vec<(usize, usize)> = (0..2).map(|t| (cols[t], rows[t])).collect();
            mirrored.sort();
            let got: Vec<(usize, usize)> = (0..2).map(|t| (trows[t], tcols[t])).collect();
            assert_eq!(got, mirrored);
        }
    }
}

#[test]
fn maximizing_is_minimizing_the_negated_matrix() {
    let mut rng = Lcg(5);
    for _ in 0..100 {
        let values: Vec<i64> = (0..12).map(|_| rng.next(50)).collect();
        let negated: Vec<i64> = values.iter().map(|x| -x).collect();
        for (nr, nc) in [(3usize, 4usize), (4, 3), (2, 6), (6, 2)] {
            assert_eq!(
                solve(nr, nc, &finite(&values), true),
                solve(nr, nc, &finite(&negated), false)
            );
            assert_eq!(
                get_assigned_cost(nr, nc, &finite(&values), true).map(|x| -x),
                get_assigned_cost(nr, nc, &finite(&negated), false)
            );
        }
    }
}

#[test]
fn solving_twice_gives_the_same() {
    let values = [5, 5, 1, 5, 5, 5, 1, 1, 1, 5, 1, 5];
    let first = solve(3, 4, &finite(&values), false);
    let second = solve(3, 4, &finite(&values), false);
    assert_eq!(first, second);
    assert!(first.is_ok());
}

#[test]
fn entries_that_are_not_finite_are_invalid() {
    for bad in [Cost::NaN, Cost::PosInfinity, Cost::NegInfinity] {
        for place in 0..6 {
            let mut cost = finite(&[1, 2, 3, 4, 5, 6]);
            cost[place] = bad;
            for maximize in [false, true] {
                assert_eq!(solve(2, 3, &cost, maximize), Err(LSAPError::Invalid));
                assert_eq!(solve(3, 2, &cost, maximize), Err(LSAPError::Invalid));
                assert_eq!(get_assigned_cost(2, 3, &cost, maximize), Err(LSAPError::Invalid));
            }
        }
    }
}

#[test]
fn extreme_entries_do_not_overflow() {
    let values = [i64::MIN, i64::MAX, i64::MAX, i64::MIN, i64::MIN, i64::MAX, 0, i64::MIN, i64::MAX];
    for maximize in [false, true] {
        let (rows, cols) = solve(3, 3, &finite(&values), maximize).unwrap();
        assert_valid(3, 3, &rows, &cols);
        assert_eq!(total(3, &values, &rows, &cols), brute_force(3, 3, &values, maximize));
    }
    assert_eq!(
        get_assigned_cost(3, 3, &finite(&values), false),
        Ok(2 * (i64::MIN as i128) + i64::MAX as i128)
    );
}

#[test]
fn equally_near_columns_prefer_a_free_one() {
    // Row 1 finds columns 0 and 1 equally near; column 0 is taken, column 1 is free.
    let values = [0, 0, 0, 0];
    assert_eq!(solve(2, 2, &finite(&values), false), Ok((vec![0, 1], vec![0, 1])));
    let values = [1, 2, 1, 2];
    assert_eq!(solve(2, 2, &finite(&values), false), Ok((vec![0, 1], vec![0, 1])));
}

#[test]
fn earlier_rows_give_way() {
    let values = [1, 2, 1, 5];
    assert_eq!(solve(2, 2, &finite(&values), false), Ok((vec![0, 1], vec![1, 0])));
    assert_eq!(get_assigned_cost(2, 2, &finite(&values), false), Ok(3));
}

#[test]
fn a_row_with_every_column_taken_is_infeasible() {
    let mut matching = Matching::new(2, 1, vec![5, 7]);
    assert_eq!(matching.assign_next_row(), Ok(()));
    assert_eq!(matching.col4row, vec![Some(0), None]);
    assert_eq!(matching.assign_next_row(), Err(LSAPError::Infeasible));
    assert_eq!(matching.col4row, vec![Some(0), None]);
    assert_eq!(matching.row4col, vec![Some(0)]);
    assert_eq!(matching.assigned, 1);
}

#[test]
fn rows_are_assigned_one_at_a_time() {
    let mut matching = Matching::new(2, 2, vec![1, 2, 1, 5]);
    assert_eq!(matching.assign_next_row(), Ok(()));
    assert_eq!(matching.col4row, vec![Some(0), None]);
    assert_eq!(matching.u, vec![1, 0]);
    assert_eq!(matching.assign_next_row(), Ok(()));
    assert_eq!(matching.col4row, vec![Some(1), Some(0)]);
    assert_eq!(matching.row4col, vec![Some(1), Some(0)]);
    assert_eq!(matching.u, vec![2, 2]);
    assert_eq!(matching.v, vec![-1, 0]);
}

#[test]
fn argsort_orders_places_by_value() {
    assert_eq!(argsort_iter(&vec![30, 10, 20]), vec![1, 2, 0]);
    assert_eq!(argsort_iter(&Vec::new()), Vec::<usize>::new());
    assert_eq!(argsort_iter(&vec![4]), vec![0]);
}

#[test]
fn argsort_keeps_equal_values_in_place_order() {
    assert_eq!(argsort_iter(&vec![2, 1, 2, 1, 2]), vec![1, 3, 0, 2, 4]);
    assert_eq!(argsort_iter(&vec![7, 7, 7]), vec![0, 1, 2]);
}
