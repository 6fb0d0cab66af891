//! What holds of the solver as a function: every search that can succeed
//! does, and the pairing that comes out is a best one.

use vstd::prelude::*;
use crate::cost::{Cost, LSAPError};
use crate::invariants::{found, growing, state_wf};
use crate::model::{
    assign, assign_rows, augment, flip, initial, search, start, update_duals, Matrix, Search,
    State,
};
use crate::optimal::{all_finite, lemma_output_optimal, lemma_working, working};
use crate::pairing::{ascending, is_pairing, optimal, pair_costs, total_cost};
use crate::solve::solve_model;
use crate::state_proofs::{
    lemma_free_entry, lemma_initial, lemma_update_duals, lemma_walk_done, lemma_walk_step, walking,
};
use crate::tree_proofs::{
    lemma_exhausted, lemma_scan, lemma_start, lemma_step_arrived, lemma_step_frontier, restamp,
    step, step_column,
};

verus! {

/// A growing tree ends at a free column, or, where there is none, with every
/// column taken.
pub proof fn lemma_search(m: Matrix, s: State, k: nat, q: Search, stamp: Seq<int>) -> (last: Seq<
    int,
>)
    requires
        growing(m, s, k, q, stamp),
    ensures
        match search(m, s, q) {
            Some((tree, sink)) => found(m, s, k, tree, sink as int, last),
            None => forall|j: int| 0 <= j < m.nc ==> (#[trigger] s.row4col[j]) is Some,
        },
    decreases q.remaining.len(),
{
    if q.remaining.len() == 0 {
        lemma_exhausted(m, s, k, q, stamp);
        stamp
    } else {
        lemma_scan(m, s, k, q, stamp);
        let j = step_column(m, s, q);
        match s.row4col[j as int] {
            None => {
                lemma_step_arrived(m, s, k, q, stamp);
                restamp(m, s, q, stamp)
            },
            Some(i) => {
                lemma_step_frontier(m, s, k, q, stamp);
                lemma_search(m, s, k, Search { row: i, ..step(m, s, q) }, restamp(m, s, q, stamp))
            },
        }
    }
}

/// The walk back along the path ends with one more row assigned.
pub proof fn lemma_augment(
    m: Matrix,
    base: State,
    t: State,
    k: nat,
    q: Search,
    stamp: Seq<int>,
    j: int,
    fuel: nat,
)
    requires
        walking(m, base, t, k, q, stamp, j, fuel),
    ensures
        state_wf(m, augment(q.path, t, j as usize, k as usize, fuel), k + 1),
    decreases fuel,
{
    if q.path[j].unwrap() == k {
        lemma_walk_done(m, base, t, k, q, stamp, j, fuel);
    } else {
        lemma_walk_step(m, base, t, k, q, stamp, j, fuel);
        lemma_augment(
            m,
            base,
            flip(q.path, t, j as usize),
            k,
            q,
            stamp,
            t.col4row[q.path[j].unwrap() as int].unwrap() as int,
            (fuel - 1) as nat,
        );
    }
}

/// While a column is free, the next row can be assigned.
pub proof fn lemma_assign(m: Matrix, s: State, k: nat, free: int)
    requires
        state_wf(m, s, k),
        k < m.nr,
        0 <= free < m.nc,
        s.row4col[free] is None,
    ensures
        assign(m, s, k as usize) is Some,
        state_wf(m, assign(m, s, k as usize).unwrap(), k + 1),
{
    lemma_start(m, s, k);
    let stamp = lemma_search(m, s, k, start(m, k as usize), Seq::new(m.nc, |j: int| 0int));
    match search(m, s, start(m, k as usize)) {
        None => {
            assert(s.row4col[free] is Some);
        },
        Some((q, sink)) => {
            lemma_update_duals(m, s, k, q, sink as int, stamp);
            let lifted = update_duals(s, q, k as int);
            lemma_augment(m, lifted, lifted, k, q, stamp, sink as int, m.nc);
        },
    }
}

/// With no more rows than columns, every row gets assigned.
pub proof fn lemma_assign_rows(m: Matrix, s: State, k: nat)
    requires
        state_wf(m, s, k),
        m.nr <= m.nc,
    ensures
        assign_rows(m, s, k) is Some,
        state_wf(m, assign_rows(m, s, k).unwrap(), m.nr),
    decreases m.nr - k,
{
    if k < m.nr {
        let free = lemma_free_entry(s.row4col);
        lemma_assign(m, s, k, free);
        lemma_assign_rows(m, assign(m, s, k as usize).unwrap(), k + 1);
    }
}

/// The solver fails on the matrices that hold an entry that is not finite,
/// and on no others; what it returns otherwise is a pairing that no other
/// pairing beats, its rows ascending. With no rows or no columns that is the
/// empty pairing.
pub proof fn theorem_solve(nr: nat, nc: nat, cost: Seq<Cost>, maximize: bool)
    requires
        nr <= usize::MAX,
        nc <= usize::MAX,
    ensures
        match solve_model(nr, nc, cost, maximize) {
            Ok((rows, cols)) => {
                &&& nr == 0 || nc == 0 || all_finite(cost)
                &&& optimal(nr, nc, cost, maximize, rows, cols)
                &&& ascending(rows)
            },
            Err(e) => e == LSAPError::Invalid && nr > 0 && nc > 0 && !all_finite(cost),
        },
        nr == 0 || nc == 0 ==> solve_model(nr, nc, cost, maximize) == Ok::<
            (Seq<usize>, Seq<usize>),
            LSAPError,
        >((Seq::empty(), Seq::empty())),
{
    if nr == 0 || nc == 0 {
        let none = Seq::<usize>::empty();
        assert forall|r2: Seq<usize>, c2: Seq<usize>| #[trigger]
            is_pairing(nr, nc, r2, c2) implies total_cost(nc, cost, r2, c2) == total_cost(
            nc,
            cost,
            none,
            none,
        ) by {
            assert(pair_costs(nc, cost, r2, c2) =~= pair_costs(nc, cost, none, none));
        }
    } else if all_finite(cost) {
        let m = working(nr, nc, cost, maximize);
        lemma_working(nr, nc, cost, maximize);
        lemma_initial(m);
        lemma_assign_rows(m, initial(m), 0);
        lemma_output_optimal(nr, nc, cost, maximize, assign_rows(m, initial(m), 0).unwrap());
    }
}

} // verus!
