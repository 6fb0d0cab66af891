use lsap::{solve, Cost};

/// The same search in floating point, written out plainly, to hold the
/// solver against on matrices of whole numbers: path lengths, the order in
/// which columns are looked at and the choice among equally near columns.
fn solve_in_floats(
    mut nr: usize,
    mut nc: usize,
    cost: &[f64],
    maximize: bool,
) -> Option<(Vec<usize>, Vec<usize>)> {
    if nr == 0 || nc == 0 {
        return Some((vec![], vec![]));
    }
    let exchanged = nc < nr;
    let mut work = vec![0.0; nr * nc];
    for i in 0..nr {
        for j in 0..nc {
            let x = if maximize { -cost[i * nc + j] } else { cost[i * nc + j] };
            if exchanged {
                work[j * nr + i] = x;
            } else {
                work[i * nc + j] = x;
            }
        }
    }
    if exchanged {
        std::mem::swap(&mut nr, &mut nc);
    }
    if work.iter().any(|x| !x.is_finite()) {
        return None;
    }
    let mut u = vec![0.0; nr];
    let mut v = vec![0.0; nc];
    let mut col4row: Vec<Option<usize>> = vec![None; nr];
    let mut row4col: Vec<Option<usize>> = vec![None; nc];
    for cur_row in 0..nr {
        let mut dist = vec![f64::INFINITY; nc];
        let mut path: Vec<Option<usize>> = vec![None; nc];
        let mut row_seen = vec![false; nr];
        let mut col_seen = vec![false; nc];
        let mut remaining: Vec<usize> = (0..nc).rev().collect();
        let mut min_val = 0.0;
        let mut i = cur_row;
        let sink;
        loop {
            row_seen[i] = true;
            let mut lowest = f64::INFINITY;
            let mut index = None;
            for (it, &j) in remaining.iter().enumerate() {
                let r = min_val + work[i * nc + j] - u[i] - v[j];
                if r < dist[j] {
                    dist[j] = r;
                    path[j] = Some(i);
                }
                if dist[j] < lowest || (dist[j] == lowest && row4col[j].is_none()) {
                    lowest = dist[j];
                    index = Some(it);
                }
            }
            min_val = lowest;
            if min_val.is_infinite() {
                return None;
            }
            let j = remaining.swap_remove(index.unwrap());
            col_seen[j] = true;
            match row4col[j] {
                None => {
                    sink = j;
                    break;
                }
                Some(next) => i = next,
            }
        }
        u[cur_row] += min_val;
        for i in 0..nr {
            if row_seen[i] && i != cur_row {
                u[i] += min_val - dist[col4row[i].unwrap()];
            }
        }
        for j in 0..nc {
            if col_seen[j] {
                v[j] -= min_val - dist[j];
            }
        }
        let mut j = sink;
        loop {
            let i = path[j].unwrap();
            row4col[j] = Some(i);
            let before = col4row[i].replace(j);
            if i == cur_row {
                break;
            }
            j = before.unwrap();
        }
    }
    let cols: Vec<usize> = col4row.iter().map(|c| c.unwrap()).collect();
    if exchanged {
        let mut order: Vec<usize> = (0..nr).collect();
        order.sort_by_key(|&i| cols[i]);
        Some((order.iter().map(|&i| cols[i]).collect(), order))
    } else {
        Some(((0..nr).collect(), cols))
    }
}

struct Lcg(u64);

impl Lcg {
    fn next(&mut self, span: i64) -> i64 {
        self.0 = self.0.wrapping_mul(6364136223846793005).wrapping_add(1442695040888963407);
        ((self.0 >> 33) as i64) % span - span / 2
    }
}

fn compare(nr: usize, nc: usize, span: i64, rounds: usize, seed: u64) {
    let mut rng = Lcg(seed);
    for _ in 0..rounds {
        let values: Vec<i64> = (0..nr * nc).map(|_| rng.next(span)).collect();
        let exact: Vec<Cost> = values.iter().map(|x| Cost::Finite(*x)).collect();
        let floats: Vec<f64> = values.iter().map(|x| *x as f64).collect();
        for maximize in [false, true] {
            assert_eq!(
                solve(nr, nc, &exact, maximize).ok(),
                solve_in_floats(nr, nc, &floats, maximize)
            );
        }
    }
}

#[test]
fn agrees_with_the_search_in_floats_on_square_matrices() {
    compare(1, 1, 10, 10, 11);
    compare(2, 2, 3, 300, 12);
    compare(5, 5, 4, 300, 13);
    compare(8, 8, 1000, 200, 14);
    compare(20, 20, 6, 50, 15);
}

#[test]
fn agrees_with_the_search_in_floats_on_wide_matrices() {
    compare(1, 4, 3, 100, 21);
    compare(3, 7, 4, 300, 22);
    compare(6, 9, 1000, 200, 23);
    compare(10, 30, 5, 50, 24);
}

#[test]
fn agrees_with_the_search_in_floats_on_tall_matrices() {
    compare(4, 1, 3, 100, 31);
    compare(7, 3, 4, 300, 32);
    compare(9, 6, 1000, 200, 33);
    compare(30, 10, 5, 50, 34);
}

#[test]
fn agrees_with_the_search_in_floats_on_matrices_full_of_ties() {
    compare(6, 6, 2, 500, 41);
    compare(6, 8, 2, 500, 42);
    compare(8, 6, 2, 500, 43);
    compare(12, 12, 1, 5, 44);
}
