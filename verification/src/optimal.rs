//! Why the assignment that the potentials certify is a cheapest one.

use vstd::prelude::*;
use vstd::arithmetic::div_mod::lemma_fundamental_div_mod_converse;
use crate::argsort::{argsort, before, lemma_argsort};
use crate::cost::Cost;
use crate::invariants::{lemma_cell_index, state_wf};
use crate::model::{limit, Matrix, State};
use crate::pairing::{ascending, is_pairing, optimal, pair_costs, total_cost};
use crate::sums::{
    as_ints, distinct_within, gather, lemma_selection_covers, lemma_sum_add, lemma_sum_le,
    lemma_sum_negate, lemma_sum_permuted, lemma_sum_selection_exact,
    lemma_sum_selection_nonpositive, sum,
};

verus! {

/// No entry is infinite or not a number.
pub open spec fn all_finite(cost: Seq<Cost>) -> bool {
    forall|k: int| 0 <= k < cost.len() ==> (#[trigger] cost[k]) is Finite
}

/// The entry of the working matrix at its row `i` and column `j`: that of
/// `cost`, with rows and columns exchanged where `cost` has more rows than
/// columns, and negated when maximising.
pub open spec fn working_entry(
    nr: nat,
    nc: nat,
    cost: Seq<Cost>,
    maximize: bool,
    i: int,
    j: int,
) -> int {
    let x = if nc < nr {
        cost[j * nc + i].value()
    } else {
        cost[i * nc + j].value()
    };
    if maximize {
        -x
    } else {
        x
    }
}

/// The matrix that the search works on: it has no more rows than columns,
/// and is to be minimised over.
pub open spec fn working(nr: nat, nc: nat, cost: Seq<Cost>, maximize: bool) -> Matrix {
    let wr = if nc < nr {
        nc
    } else {
        nr
    };
    let wc = if nc < nr {
        nr
    } else {
        nc
    };
    Matrix {
        nr: wr,
        nc: wc,
        w: Seq::new(
            wr * wc,
            |k: int| working_entry(nr, nc, cost, maximize, k / (wc as int), k % (wc as int)),
        ),
    }
}

/// The working matrix is well formed, and its entries are those of `working_entry`.
pub proof fn lemma_working(nr: nat, nc: nat, cost: Seq<Cost>, maximize: bool)
    requires
        0 < nr <= usize::MAX,
        0 < nc <= usize::MAX,
    ensures
        working(nr, nc, cost, maximize).wf(),
        working(nr, nc, cost, maximize).nr <= working(nr, nc, cost, maximize).nc,
        forall|i: int, j: int|
            0 <= i < working(nr, nc, cost, maximize).nr && 0 <= j < working(
                nr,
                nc,
                cost,
                maximize,
            ).nc ==> #[trigger] working(nr, nc, cost, maximize).at(i, j) == working_entry(
                nr,
                nc,
                cost,
                maximize,
                i,
                j,
            ),
{
    let m = working(nr, nc, cost, maximize);
    assert forall|i: int, j: int| 0 <= i < m.nr && 0 <= j < m.nc implies #[trigger] m.at(i, j)
        == working_entry(nr, nc, cost, maximize, i, j) && -limit() <= m.at(i, j) <= limit() by {
        lemma_cell_index(m.nr as int, m.nc as int, i, j);
        lemma_fundamental_div_mod_converse(i * m.nc + j, m.nc as int, i, j);
    }
}

/// The costs of the pairs of `r` with `c` in the matrix `m`.
pub open spec fn cells(m: Matrix, r: Seq<int>, c: Seq<int>) -> Seq<int> {
    Seq::new(r.len(), |t: int| m.at(r[t], c[t]))
}

/// With every row assigned, no pairing of all rows costs less than the
/// potentials add up to, and the pairing that the state holds costs just that.
pub proof fn lemma_dual_bound(m: Matrix, s: State, r: Seq<int>, c: Seq<int>)
    requires
        state_wf(m, s, m.nr),
        distinct_within(r, m.nr as int),
        distinct_within(c, m.nc as int),
        r.len() == m.nr,
        c.len() == m.nr,
    ensures
        sum(cells(m, r, c)) >= sum(s.u) + sum(s.v),
        (forall|t: int| 0 <= t < m.nr ==> s.col4row[#[trigger] r[t]] == Some(c[t] as usize))
            ==> sum(cells(m, r, c)) == sum(s.u) + sum(s.v),
{
    let a = cells(m, r, c);
    let gu = gather(s.u, r);
    let gv = gather(s.v, c);
    let both = Seq::new(m.nr, |t: int| gu[t] + gv[t]);
    lemma_sum_add(gu, gv, both);
    lemma_sum_permuted(s.u, r);
    lemma_sum_selection_nonpositive(s.v, c);
    assert forall|t: int| 0 <= t < m.nr implies both[t] <= a[t] by {
        assert(0 <= r[t] < m.nr);
        assert(0 <= c[t] < m.nc);
        assert(s.reduced(m, r[t], c[t]) >= 0);
    }
    lemma_sum_le(both, a);
    if forall|t: int| 0 <= t < m.nr ==> s.col4row[#[trigger] r[t]] == Some(c[t] as usize) {
        assert forall|t: int| 0 <= t < m.nr implies a[t] <= both[t] by {
            assert(0 <= r[t] < m.nr);
            assert(0 <= c[t] < m.nc);
            assert(s.col4row[r[t]] == Some(c[t] as usize));
            assert(s.reduced(m, r[t], s.col4row[r[t]].unwrap() as int) == 0);
        }
        lemma_sum_le(a, both);
        assert forall|j: int| 0 <= j < s.v.len() && !c.contains(j) implies s.v[j] == 0 by {
            if s.row4col[j] is Some {
                let i = s.row4col[j].unwrap() as int;
                lemma_selection_covers(m.nr, r, i);
                let t = choose|t: int| 0 <= t < r.len() && r[t] == i;
                assert(s.col4row[r[t]] == Some(c[t] as usize));
                assert(s.col4row[i] == Some(j as usize));
                assert(c[t] == j);
            }
        }
        lemma_sum_selection_exact(s.v, c);
    }
}

/// The columns of the rows, where every row has one.
pub open spec fn keys_of(s: State) -> Seq<usize> {
    Seq::new(s.col4row.len(), |i: int| s.col4row[i].unwrap())
}

/// The pairing that the state holds, as rows and columns of the matrix that
/// was given: in order of the rows, which come out ascending.
pub open spec fn output(exchanged: bool, s: State) -> (Seq<usize>, Seq<usize>) {
    let keys = keys_of(s);
    if exchanged {
        let order = argsort(keys, keys.len());
        (Seq::new(order.len(), |t: int| keys[order[t] as int]), order)
    } else {
        (Seq::new(keys.len(), |i: int| i as usize), keys)
    }
}

/// What a pairing of the given matrix costs, read off the working matrix.
pub proof fn lemma_pairing_cost(
    nr: nat,
    nc: nat,
    cost: Seq<Cost>,
    maximize: bool,
    rows: Seq<usize>,
    cols: Seq<usize>,
)
    requires
        0 < nr <= usize::MAX,
        0 < nc <= usize::MAX,
        is_pairing(nr, nc, rows, cols),
    ensures
        ({
            let m = working(nr, nc, cost, maximize);
            let paid = if nc < nr {
                sum(cells(m, as_ints(cols), as_ints(rows)))
            } else {
                sum(cells(m, as_ints(rows), as_ints(cols)))
            };
            total_cost(nc, cost, rows, cols) == if maximize {
                -paid
            } else {
                paid
            }
        }),
{
    let m = working(nr, nc, cost, maximize);
    lemma_working(nr, nc, cost, maximize);
    let a = if nc < nr {
        cells(m, as_ints(cols), as_ints(rows))
    } else {
        cells(m, as_ints(rows), as_ints(cols))
    };
    let p = pair_costs(nc, cost, rows, cols);
    assert forall|t: int| 0 <= t < p.len() implies a[t] == if maximize {
        -p[t]
    } else {
        p[t]
    } by {
        assert(0 <= as_ints(rows)[t] < nr);
        assert(0 <= as_ints(cols)[t] < nc);
        if nc < nr {
            assert(m.at(cols[t] as int, rows[t] as int) == working_entry(
                nr,
                nc,
                cost,
                maximize,
                cols[t] as int,
                rows[t] as int,
            ));
        } else {
            assert(m.at(rows[t] as int, cols[t] as int) == working_entry(
                nr,
                nc,
                cost,
                maximize,
                rows[t] as int,
                cols[t] as int,
            ));
        }
    }
    if maximize {
        lemma_sum_negate(p, a);
    } else {
        assert(a =~= p);
    }
}

/// With every row of the working matrix assigned, the pairing that comes out
/// is a best one for the matrix that was given.
pub proof fn lemma_output_optimal(
    nr: nat,
    nc: nat,
    cost: Seq<Cost>,
    maximize: bool,
    s: State,
)
    requires
        0 < nr <= usize::MAX,
        0 < nc <= usize::MAX,
        state_wf(working(nr, nc, cost, maximize), s, working(nr, nc, cost, maximize).nr),
    ensures
        optimal(nr, nc, cost, maximize, output(nc < nr, s).0, output(nc < nr, s).1),
        ascending(output(nc < nr, s).0),
{
    let m = working(nr, nc, cost, maximize);
    lemma_working(nr, nc, cost, maximize);
    let keys = keys_of(s);
    let rows = output(nc < nr, s).0;
    let cols = output(nc < nr, s).1;
    assert forall|a: int, b: int| 0 <= a < b < keys.len() implies keys[a] != keys[b] by {
        assert(s.col4row[a] is Some);
        assert(s.col4row[b] is Some);
        assert(s.row4col[keys[a] as int] == Some(a as usize));
        assert(s.row4col[keys[b] as int] == Some(b as usize));
    }
    assert forall|a: int| 0 <= a < keys.len() implies keys[a] < m.nc by {
        assert(s.col4row[a] is Some);
    }
    // the pairing in the working matrix: its rows `wr` and their columns `wc`
    let wr = if nc < nr {
        as_ints(cols)
    } else {
        as_ints(rows)
    };
    let wc = if nc < nr {
        as_ints(rows)
    } else {
        as_ints(cols)
    };
    if nc < nr {
        lemma_argsort(keys, keys.len());
        let order = argsort(keys, keys.len());
        assert forall|a: int, b: int| 0 <= a < b < order.len() implies order[a] != order[b]
            && rows[a] < rows[b] by {
            assert(before(keys, order[a], order[b]));
            let x = order[a] as int;
            let y = order[b] as int;
            if x < y {
                assert(keys[x] != keys[y]);
            } else if y < x {
                assert(keys[y] != keys[x]);
            }
        }
    }
    assert(distinct_within(wr, m.nr as int));
    assert(distinct_within(wc, m.nc as int));
    assert(is_pairing(nr, nc, rows, cols));
    assert(ascending(rows));
    assert forall|t: int| 0 <= t < m.nr implies s.col4row[#[trigger] wr[t]] == Some(
        wc[t] as usize,
    ) by {
        assert(s.col4row[wr[t]] is Some);
    }
    lemma_dual_bound(m, s, wr, wc);
    lemma_pairing_cost(nr, nc, cost, maximize, rows, cols);
    assert forall|r2: Seq<usize>, c2: Seq<usize>| #[trigger]
        is_pairing(nr, nc, r2, c2) implies if maximize {
        total_cost(nc, cost, r2, c2) <= total_cost(nc, cost, rows, cols)
    } else {
        total_cost(nc, cost, rows, cols) <= total_cost(nc, cost, r2, c2)
    } by {
        lemma_pairing_cost(nr, nc, cost, maximize, r2, c2);
        if nc < nr {
            lemma_dual_bound(m, s, as_ints(c2), as_ints(r2));
        } else {
            lemma_dual_bound(m, s, as_ints(r2), as_ints(c2));
        }
    }
}

} // verus!
