//! The solver's state in memory: the working matrix, the potentials and the
//! partial assignment, grown one row at a time.

use vstd::prelude::*;
use crate::invariants::{lemma_cell_index, state_wf};
use crate::model::{initial, limit, Matrix, State};
use crate::state_proofs::lemma_initial;

verus! {

/// Machine integers read as mathematical ones.
pub open spec fn ints(s: Seq<i128>) -> Seq<int> {
    Seq::new(s.len(), |i: int| s[i] as int)
}

/// Distances read as mathematical integers.
pub open spec fn opt_ints(s: Seq<Option<i128>>) -> Seq<Option<int>> {
    Seq::new(
        s.len(),
        |i: int|
            match s[i] {
                Some(x) => Some(x as int),
                None => None,
            },
    )
}

/// A vector of `n` copies of `x`.
pub(crate) fn filled<T: Copy>(n: usize, x: T) -> (v: Vec<T>)
    ensures
        v@ == Seq::new(n as nat, |i: int| x),
{
    let mut v: Vec<T> = Vec::with_capacity(n);
    let mut i: usize = 0;
    while i < n
        invariant
            i <= n,
            v@ == Seq::new(i as nat, |k: int| x),
        decreases n - i,
    {
        v.push(x);
        i += 1;
        assert(v@ =~= Seq::new(i as nat, |k: int| x));
    }
    v
}

/// A partial assignment of the rows of a cost matrix to its columns, with
/// the potentials that show it to be a cheapest one for the rows assigned.
pub struct Matching {
    pub nr: usize,
    pub nc: usize,
    pub cost: Vec<i128>,
    pub u: Vec<i128>,
    pub v: Vec<i128>,
    pub col4row: Vec<Option<usize>>,
    pub row4col: Vec<Option<usize>>,
    pub assigned: usize,
}

impl Matching {
    /// The matrix that is minimised over.
    pub open spec fn matrix(&self) -> Matrix {
        Matrix { nr: self.nr as nat, nc: self.nc as nat, w: ints(self.cost@) }
    }

    /// The potentials and the assignment.
    pub open spec fn state(&self) -> State {
        State {
            u: ints(self.u@),
            v: ints(self.v@),
            col4row: self.col4row@,
            row4col: self.row4col@,
        }
    }

    /// The first `assigned` rows are assigned, and the potentials prove the
    /// assignment to be a cheapest one for them.
    pub open spec fn wf(&self) -> bool {
        state_wf(self.matrix(), self.state(), self.assigned as nat)
    }

    /// The empty assignment over an `nr` by `nc` matrix in row-major order.
    pub fn new(nr: usize, nc: usize, cost: Vec<i128>) -> (r: Matching)
        requires
            cost.len() == nr * nc,
            forall|k: int| 0 <= k < cost.len() ==> -limit() <= #[trigger] cost[k] <= limit(),
        ensures
            r.wf(),
            r.nr == nr,
            r.nc == nc,
            r.cost == cost,
            r.assigned == 0,
            r.state() == initial(r.matrix()),
    {
        let u = filled(nr, 0i128);
        let v = filled(nc, 0i128);
        let col4row = filled(nr, None::<usize>);
        let row4col = filled(nc, None::<usize>);
        let r = Matching { nr, nc, cost, u, v, col4row, row4col, assigned: 0 };
        proof {
            let m = r.matrix();
            assert forall|i: int, j: int| 0 <= i < m.nr && 0 <= j < m.nc implies -limit()
                <= #[trigger] m.at(i, j) <= limit() by {
                lemma_cell_index(nr as int, nc as int, i, j);
                assert(m.w[i * nc + j] == r.cost[i * nc + j]);
            }
            assert(r.state().u =~= initial(m).u);
            assert(r.state().v =~= initial(m).v);
            assert(r.state().col4row =~= initial(m).col4row);
            assert(r.state().row4col =~= initial(m).row4col);
            lemma_initial(m);
        }
        r
    }

    /// The entry of the matrix at row `i` and column `j`.
    pub fn cell(&self, i: usize, j: usize) -> (r: i128)
        requires
            self.cost.len() == self.nr * self.nc,
            i < self.nr,
            j < self.nc,
        ensures
            r == self.matrix().at(i as int, j as int),
    {
        proof {
            lemma_cell_index(self.nr as int, self.nc as int, i as int, j as int);
        }
        self.cost[i * self.nc + j]
    }
}

} // verus!
