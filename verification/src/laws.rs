//! Laws that relate one run of the solver to another.

use vstd::prelude::*;
use vstd::arithmetic::div_mod::{
    lemma_div_pos_is_pos, lemma_fundamental_div_mod, lemma_mod_pos_bound, lemma_multiply_divide_lt,
};
use crate::argsort::{argsort, lemma_argsort};
use crate::cost::{Cost, LSAPError};
use crate::invariants::lemma_cell_index;
use crate::model::{
    assign, assign_rows, augment, flip, initial, leave, relax, search, select, start,
    update_duals, Matrix, State,
};
use crate::optimal::{all_finite, keys_of, lemma_working, output, working};
use crate::pairing::{pair_costs, total_cost};
use crate::solve::{solve_model, solved};
use crate::sums::{as_ints, lemma_sum_negate};
use crate::state_proofs::lemma_initial;
use crate::theorems::{lemma_assign_rows, theorem_solve};

verus! {

/// Two runs of `solve` on the same matrix with the same aim return the same.
pub proof fn law_same_input_same_output(
    nr: nat,
    nc: nat,
    cost: Seq<Cost>,
    maximize: bool,
    first: Result<(Vec<usize>, Vec<usize>), LSAPError>,
    second: Result<(Vec<usize>, Vec<usize>), LSAPError>,
)
    requires
        solved(first) == solve_model(nr, nc, cost, maximize),
        solved(second) == solve_model(nr, nc, cost, maximize),
    ensures
        solved(first) == solved(second),
{
}

/// `negated` holds the entries of `cost` with their signs changed.
pub open spec fn negation(cost: Seq<Cost>, negated: Seq<Cost>) -> bool {
    &&& negated.len() == cost.len()
    &&& forall|k: int|
        0 <= k < cost.len() ==> ((#[trigger] negated[k]) is Finite <==> cost[k] is Finite)
            && negated[k].value() == -cost[k].value()
}

/// To maximise over a matrix is to minimise over its negation: both give the
/// same pairing, and its total cost in the one is the negative of that in
/// the other.
pub proof fn law_maximize_is_minimize_negated(
    nr: nat,
    nc: nat,
    cost: Seq<Cost>,
    negated: Seq<Cost>,
)
    requires
        nr <= usize::MAX,
        nc <= usize::MAX,
        cost.len() == nr * nc,
        negation(cost, negated),
    ensures
        solve_model(nr, nc, cost, true) == solve_model(nr, nc, negated, false),
        match solve_model(nr, nc, cost, true) {
            Ok((rows, cols)) => total_cost(nc, negated, rows, cols) == -total_cost(
                nc,
                cost,
                rows,
                cols,
            ),
            Err(_) => true,
        },
{
    assert(all_finite(cost) == all_finite(negated)) by {
        if all_finite(cost) {
            assert forall|k: int| 0 <= k < negated.len() implies (#[trigger] negated[k]) is Finite by {
                assert(cost[k] is Finite);
            }
        }
        if all_finite(negated) {
            assert forall|k: int| 0 <= k < cost.len() implies (#[trigger] cost[k]) is Finite by {
                assert(negated[k] is Finite);
            }
        }
    }
    if nr > 0 && nc > 0 {
        let a = working(nr, nc, cost, true);
        let b = working(nr, nc, negated, false);
        assert(a.nr * a.nc == nr * nc) by (nonlinear_arith)
            requires
                (a.nr == nr && a.nc == nc) || (a.nr == nc && a.nc == nr),
        ;
        assert forall|k: int| 0 <= k < a.w.len() implies a.w[k] == b.w[k] by {
            let i = k / (a.nc as int);
            let j = k % (a.nc as int);
            lemma_div_pos_is_pos(k, a.nc as int);
            lemma_mod_pos_bound(k, a.nc as int);
            assert(a.nc * a.nr == a.nr * a.nc) by (nonlinear_arith);
            lemma_multiply_divide_lt(k, a.nc as int, a.nr as int);
            if nc < nr {
                lemma_cell_index(nr as int, nc as int, j, i);
                assert(negated[j * nc + i].value() == -cost[j * nc + i].value());
            } else {
                lemma_cell_index(nr as int, nc as int, i, j);
                assert(negated[i * nc + j].value() == -cost[i * nc + j].value());
            }
        }
        assert(a.w =~= b.w);
        assert(a == b);
    }
    theorem_solve(nr, nc, cost, true);
    match solve_model(nr, nc, cost, true) {
        Ok((rows, cols)) => {
            let p = pair_costs(nc, cost, rows, cols);
            let n = pair_costs(nc, negated, rows, cols);
            assert forall|t: int| 0 <= t < p.len() implies n[t] == -p[t] by {
                assert(0 <= as_ints(rows)[t] < nr);
                assert(0 <= as_ints(cols)[t] < nc);
                lemma_cell_index(nr as int, nc as int, rows[t] as int, cols[t] as int);
                assert(negated[rows[t] * nc + cols[t]].value() == -cost[rows[t] * nc
                    + cols[t]].value());
            }
            lemma_sum_negate(p, n);
        },
        Err(_) => {},
    }
}

/// The state in which each of the first `k` rows holds the column of its own
/// number, at potential `c`.
pub open spec fn diagonal(m: Matrix, c: int, k: nat) -> State {
    State {
        u: Seq::new(
            m.nr,
            |i: int|
                if i < k {
                    c
                } else {
                    0
                },
        ),
        v: Seq::new(m.nc, |j: int| 0int),
        col4row: Seq::new(
            m.nr,
            |i: int|
                if i < k {
                    Some(i as usize)
                } else {
                    None
                },
        ),
        row4col: Seq::new(
            m.nc,
            |j: int|
                if j < k {
                    Some(j as usize)
                } else {
                    None
                },
        ),
    }
}

/// Every entry of the matrix is `c`.
pub open spec fn flat(m: Matrix, c: int) -> bool {
    forall|i: int, j: int| 0 <= i < m.nr && 0 <= j < m.nc ==> #[trigger] m.at(i, j) == c
}

/// Among columns all equally near, looked at in descending order, of which
/// those from `k` on are free, the choice falls on column `k`.
proof fn lemma_select_flat(
    spc: Seq<Option<int>>,
    row4col: Seq<Option<usize>>,
    remaining: Seq<usize>,
    nc: nat,
    k: nat,
    c: int,
    n: nat,
)
    requires
        k < nc <= usize::MAX,
        n <= nc,
        spc.len() == nc,
        row4col.len() == nc,
        remaining.len() == nc,
        forall|j: int| 0 <= j < nc ==> #[trigger] spc[j] == Some(c),
        forall|j: int| 0 <= j < nc ==> ((#[trigger] row4col[j]) is None <==> j >= k),
        forall|t: int| 0 <= t < nc ==> #[trigger] remaining[t] == (nc - 1 - t) as usize,
    ensures
        select(spc, row4col, remaining, n) == if n == 0 {
            (None::<int>, -1int)
        } else if n <= nc - k {
            (Some(c), n - 1)
        } else {
            (Some(c), nc - 1 - k)
        },
    decreases n,
{
    if n > 0 {
        lemma_select_flat(spc, row4col, remaining, nc, k, c, (n - 1) as nat);
        let j = remaining[n - 1] as int;
        assert(j == nc - n);
        assert(spc[j] == Some(c));
        assert(row4col[j] is None <==> j >= k);
    }
}

/// Over a matrix of equal entries, with the first `k` rows on the diagonal,
/// row `k` takes column `k`.
proof fn lemma_diagonal_step(m: Matrix, c: int, k: nat)
    requires
        m.nr == m.nc,
        m.nc <= usize::MAX,
        flat(m, c),
        k < m.nr,
    ensures
        assign(m, diagonal(m, c, k), k as usize) == Some(diagonal(m, c, k + 1)),
{
    let s = diagonal(m, c, k);
    let q = start(m, k as usize);
    let r = relax(m, s, q);
    assert forall|j: int| 0 <= j < m.nc implies #[trigger] r.spc[j] == Some(c) && r.path[j]
        == Some(k as usize) by {
        assert(m.at(k as int, j) == c);
    }
    lemma_select_flat(r.spc, s.row4col, q.remaining, m.nc, k, c, m.nc);
    let idx = m.nc - 1 - k;
    assert(q.remaining[idx] == k as usize);
    let next = leave(r, idx, c);
    assert(s.row4col[k as int] is None);
    assert(search(m, s, q) == Some((next, k as usize)));
    let lifted = update_duals(s, next, k as int);
    assert(lifted.u =~= diagonal(m, c, k + 1).u);
    assert(lifted.v =~= s.v);
    let done = flip(next.path, lifted, k as usize);
    assert(augment(next.path, lifted, k as usize, k as usize, m.nc) == done);
    assert(done.col4row =~= diagonal(m, c, k + 1).col4row);
    assert(done.row4col =~= diagonal(m, c, k + 1).row4col);
}

/// Over a matrix of equal entries the rows from `k` on stay on the diagonal.
proof fn lemma_diagonal_rows(m: Matrix, c: int, k: nat)
    requires
        m.nr == m.nc,
        m.nc <= usize::MAX,
        flat(m, c),
        k <= m.nr,
    ensures
        assign_rows(m, diagonal(m, c, k), k) == Some(diagonal(m, c, m.nr)),
    decreases m.nr - k,
{
    if k < m.nr {
        lemma_diagonal_step(m, c, k);
        lemma_diagonal_rows(m, c, k + 1);
    }
}

/// The rows, or the columns, of the pairing of each row with the column of its number.
pub open spec fn identity(n: nat) -> Seq<usize> {
    Seq::new(n, |i: int| i as usize)
}

/// Over a square matrix whose entries are all equal, the solver pairs each
/// row with the column of the same number, whether it minimises or maximises.
pub proof fn law_constant_matrix_gives_identity(n: nat, cost: Seq<Cost>, c: i64, maximize: bool)
    requires
        n <= usize::MAX,
        cost.len() == n * n,
        forall|k: int| 0 <= k < cost.len() ==> #[trigger] cost[k] == Cost::Finite(c),
    ensures
        solve_model(n, n, cost, maximize) == Ok::<(Seq<usize>, Seq<usize>), LSAPError>(
            (identity(n), identity(n)),
        ),
{
    if n == 0 {
        assert(identity(n) =~= Seq::<usize>::empty());
    } else {
        let m = working(n, n, cost, maximize);
        let e: int = if maximize {
            -(c as int)
        } else {
            c as int
        };
        lemma_working(n, n, cost, maximize);
        assert forall|i: int, j: int| 0 <= i < m.nr && 0 <= j < m.nc implies #[trigger] m.at(i, j)
            == e by {
            lemma_cell_index(n as int, n as int, i, j);
            assert(cost[i * n + j] == Cost::Finite(c));
        }
        assert(initial(m) =~= diagonal(m, e, 0)) by {
            assert(initial(m).u =~= diagonal(m, e, 0).u);
            assert(initial(m).col4row =~= diagonal(m, e, 0).col4row);
            assert(initial(m).row4col =~= diagonal(m, e, 0).row4col);
        }
        lemma_diagonal_rows(m, e, 0);
        let last = diagonal(m, e, n);
        assert(keys_of(last) =~= identity(n));
        assert(output(false, last).0 =~= identity(n));
    }
}

/// `mirror` is the `nr` by `nc` matrix `cost` with rows and columns exchanged.
pub open spec fn exchange(nr: nat, nc: nat, cost: Seq<Cost>, mirror: Seq<Cost>) -> bool {
    &&& mirror.len() == cost.len()
    &&& forall|i: int, j: int|
        0 <= i < nr && 0 <= j < nc ==> #[trigger] mirror[j * nr + i] == cost[i * nc + j]
}

/// A place in a matrix of `nc` columns is that of a row and a column.
proof fn lemma_place(nr: nat, nc: nat, k: int)
    requires
        0 <= k < nr * nc,
    ensures
        0 <= k / (nc as int) < nr,
        0 <= k % (nc as int) < nc,
        k == (k / (nc as int)) * nc + k % (nc as int),
{
    assert(nc > 0) by (nonlinear_arith)
        requires
            0 <= k < nr * nc,
    ;
    lemma_div_pos_is_pos(k, nc as int);
    lemma_mod_pos_bound(k, nc as int);
    assert(nc * nr == nr * nc) by (nonlinear_arith);
    lemma_multiply_divide_lt(k, nc as int, nr as int);
    lemma_fundamental_div_mod(k, nc as int);
    assert((nc as int) * (k / (nc as int)) == (k / (nc as int)) * nc) by (nonlinear_arith);
}

/// A matrix with more rows than columns is solved as its mirror image is:
/// both fail alike, and each pair of the one is a pair of the other with row
/// and column exchanged.
pub proof fn law_tall_mirrors_wide(
    nr: nat,
    nc: nat,
    cost: Seq<Cost>,
    mirror: Seq<Cost>,
    maximize: bool,
)
    requires
        nr < nc <= usize::MAX,
        cost.len() == nr * nc,
        exchange(nr, nc, cost, mirror),
    ensures
        match (solve_model(nr, nc, cost, maximize), solve_model(nc, nr, mirror, maximize)) {
            (Ok((rows, cols)), Ok((mrows, mcols))) => {
                &&& mrows.len() == rows.len()
                &&& mcols.len() == rows.len()
                &&& forall|t: int|
                    0 <= t < mcols.len() ==> (#[trigger] mcols[t]) < rows.len()
                        && rows[mcols[t] as int] == mcols[t] && cols[mcols[t] as int] == mrows[t]
            },
            (Err(e), Err(f)) => e == f,
            _ => false,
        },
{
    if nr > 0 {
        assert(nr * nc == nc * nr) by (nonlinear_arith);
        assert(all_finite(cost) == all_finite(mirror)) by {
            if all_finite(cost) {
                assert forall|k: int| 0 <= k < mirror.len() implies (#[trigger] mirror[k]) is Finite by {
                    lemma_place(nc, nr, k);
                    let j = k / (nr as int);
                    let i = k % (nr as int);
                    lemma_cell_index(nr as int, nc as int, i, j);
                    assert(mirror[j * nr + i] == cost[i * nc + j]);
                }
            }
            if all_finite(mirror) {
                assert forall|k: int| 0 <= k < cost.len() implies (#[trigger] cost[k]) is Finite by {
                    lemma_place(nr, nc, k);
                    let i = k / (nc as int);
                    let j = k % (nc as int);
                    lemma_cell_index(nc as int, nr as int, j, i);
                    assert(mirror[j * nr + i] == cost[i * nc + j]);
                }
            }
        }
        if all_finite(cost) {
            let a = working(nr, nc, cost, maximize);
            let b = working(nc, nr, mirror, maximize);
            assert forall|k: int| 0 <= k < a.w.len() implies a.w[k] == b.w[k] by {
                lemma_place(nr, nc, k);
                let i = k / (nc as int);
                let j = k % (nc as int);
                assert(mirror[j * nr + i] == cost[i * nc + j]);
            }
            assert(a.w =~= b.w);
            assert(a == b);
            theorem_solve(nr, nc, cost, maximize);
            let s = assign_rows(a, initial(a), 0).unwrap();
            let keys = keys_of(s);
            lemma_working(nr, nc, cost, maximize);
            lemma_initial(a);
            lemma_assign_rows(a, initial(a), 0);
            lemma_argsort(keys, keys.len());
            let order = argsort(keys, keys.len());
            assert forall|t: int| 0 <= t < order.len() implies (#[trigger] order[t]) < keys.len() by {}
        }
    }
}

} // verus!
