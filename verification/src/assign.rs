//! Assigning one more row: the search, the update of the potentials, and the
//! flip of the assignment along the path found.

use vstd::prelude::*;
use crate::cost::LSAPError;
use crate::invariants::{found, state_wf};
use crate::matching::{ints, Matching};
use crate::model::{assign, augment, flip, limit, update_duals};
use crate::search::Tree;
use crate::state_proofs::{lemma_update_duals, lemma_walk_done, lemma_walk_step, walking};

verus! {

impl Matching {
    /// Raises the potentials of the rows that the tree `t` scanned and lowers
    /// those of the columns it left behind, by what each lacks to the
    /// distance of the free column.
    pub(crate) fn update_duals(&mut self, t: &Tree, Ghost(sink): Ghost<int>, Ghost(stamp): Ghost<Seq<int>>)
        requires
            found(
                old(self).matrix(),
                old(self).state(),
                old(self).assigned as nat,
                t@,
                sink,
                stamp,
            ),
            t.spc.len() == old(self).nc,
            t.sr.len() == old(self).nr,
            t.sc.len() == old(self).nc,
        ensures
            final(self).state() == update_duals(
                old(self).state(),
                t@,
                old(self).assigned as int,
            ),
            final(self).nr == old(self).nr,
            final(self).nc == old(self).nc,
            final(self).cost == old(self).cost,
            final(self).assigned == old(self).assigned,
            walking(
                final(self).matrix(),
                final(self).state(),
                final(self).state(),
                final(self).assigned as nat,
                t@,
                stamp,
                sink,
                final(self).nc as nat,
            ),
    {
        let ghost m = self.matrix();
        let ghost s = self.state();
        let ghost goal = update_duals(s, t@, self.assigned as int);
        let ghost u0 = self.u@;
        let ghost v0 = self.v@;
        proof {
            lemma_update_duals(m, s, self.assigned as nat, t@, sink, stamp);
        }
        let k = self.assigned;
        let nr = self.nr;
        let nc = self.nc;
        let min_val = t.min_val;
        let mut i: usize = 0;
        while i < nr
            invariant
                i <= nr,
                nr == self.nr,
                nc == self.nc,
                k == self.assigned,
                min_val == t.min_val,
                m == self.matrix(),
                self.cost == old(self).cost,
                self.col4row@ == s.col4row,
                self.row4col@ == s.row4col,
                self.v@ == v0,
                s.u == ints(u0),
                s.v == ints(v0),
                self.u.len() == nr,
                u0.len() == nr,
                t.spc.len() == nc,
                t.sr.len() == nr,
                found(m, s, k as nat, t@, sink, stamp),
                goal == update_duals(s, t@, k as int),
                walking(m, goal, goal, k as nat, t@, stamp, sink, nc as nat),
                -limit() <= min_val <= limit(),
                forall|a: int| 0 <= a < i ==> (#[trigger] self.u[a]) as int == goal.u[a],
                forall|a: int| i <= a < nr ==> #[trigger] self.u[a] == u0[a],
            decreases nr - i,
        {
            proof {
                assert(-limit() <= goal.u[i as int] <= 3 * limit());
                assert(s.u[i as int] == u0[i as int] as int);
            }
            if i == k {
                self.u[i] = self.u[i] + min_val;
            } else if t.sr[i] {
                assert(t@.sr[i as int]);
                assert(s.col4row[i as int] is Some);
                let c = self.col4row[i].unwrap();
                assert(t@.spc[c as int] is Some);
                let d = t.spc[c].unwrap();
                assert(-limit() <= d <= 11 * limit());
                self.u[i] = self.u[i] + (min_val - d);
            }
            i += 1;
        }
        let mut j: usize = 0;
        while j < nc
            invariant
                j <= nc,
                nr == self.nr,
                nc == self.nc,
                k == self.assigned,
                min_val == t.min_val,
                m == self.matrix(),
                self.cost == old(self).cost,
                self.col4row@ == s.col4row,
                self.row4col@ == s.row4col,
                s.v == ints(v0),
                self.v.len() == nc,
                v0.len() == nc,
                t.spc.len() == nc,
                t.sc.len() == nc,
                found(m, s, k as nat, t@, sink, stamp),
                goal == update_duals(s, t@, k as int),
                walking(m, goal, goal, k as nat, t@, stamp, sink, nc as nat),
                -limit() <= min_val <= limit(),
                ints(self.u@) =~= goal.u,
                forall|a: int| 0 <= a < j ==> (#[trigger] self.v[a]) as int == goal.v[a],
                forall|a: int| j <= a < nc ==> #[trigger] self.v[a] == v0[a],
            decreases nc - j,
        {
            proof {
                assert(-4 * limit() <= goal.v[j as int] <= 0);
                assert(s.v[j as int] == v0[j as int] as int);
            }
            if t.sc[j] {
                assert(t@.sc[j as int]);
                assert(t@.spc[j as int] is Some);
                let d = t.spc[j].unwrap();
                assert(-limit() <= d <= 11 * limit());
                self.v[j] = self.v[j] - (min_val - d);
            }
            j += 1;
        }
        proof {
            assert(ints(self.v@) =~= goal.v);
            assert(self.state() == goal);
        }
    }

    /// Gives the free column `sink` to the row before it on the path, that
    /// row's old column to the row before that, and so on back to the row
    /// being assigned.
    pub(crate) fn augment(&mut self, t: &Tree, sink: usize, Ghost(stamp): Ghost<Seq<int>>)
        requires
            walking(
                old(self).matrix(),
                old(self).state(),
                old(self).state(),
                old(self).assigned as nat,
                t@,
                stamp,
                sink as int,
                old(self).nc as nat,
            ),
            t.path.len() == old(self).nc,
        ensures
            final(self).state() == augment(
                t@.path,
                old(self).state(),
                sink,
                old(self).assigned,
                old(self).nc as nat,
            ),
            state_wf(final(self).matrix(), final(self).state(), (old(self).assigned + 1) as nat),
            final(self).nr == old(self).nr,
            final(self).nc == old(self).nc,
            final(self).cost == old(self).cost,
            final(self).assigned == old(self).assigned,
    {
        let ghost m = self.matrix();
        let ghost base = self.state();
        let ghost path = t@.path;
        let k = self.assigned;
        let ghost mut fuel = self.nc as nat;
        let mut j = sink;
        loop
            invariant
                m == self.matrix(),
                k == self.assigned,
                k == old(self).assigned,
                base == old(self).state(),
                self.nr == old(self).nr,
                self.nc == old(self).nc,
                self.cost == old(self).cost,
                path == t@.path,
                t.path.len() == self.nc,
                walking(m, base, self.state(), k as nat, t@, stamp, j as int, fuel),
                augment(path, self.state(), j, k, fuel) == augment(
                    path,
                    base,
                    sink,
                    k,
                    self.nc as nat,
                ),
            decreases fuel,
        {
            let ghost cur = self.state();
            assert(t@.sc[j as int]);
            let i = t.path[j].unwrap();
            proof {
                if i == k {
                    lemma_walk_done(m, base, cur, k as nat, t@, stamp, j as int, fuel);
                } else {
                    lemma_walk_step(m, base, cur, k as nat, t@, stamp, j as int, fuel);
                }
            }
            let before = self.col4row[i];
            self.row4col[j] = Some(i);
            self.col4row[i] = Some(j);
            assert(self.state() == flip(path, cur, j));
            if i == k {
                return ;
            }
            j = before.unwrap();
            proof {
                fuel = (fuel - 1) as nat;
            }
        }
    }

    /// Assigns the next row, changing the columns of rows assigned before
    /// where that makes the whole cheaper. Fails, and changes nothing, where
    /// every column is taken.
    pub fn assign_next_row(&mut self) -> (r: Result<(), LSAPError>)
        requires
            old(self).wf(),
            old(self).assigned < old(self).nr,
        ensures
            r is Err <==> forall|j: int|
                0 <= j < old(self).nc ==> (#[trigger] old(self).row4col[j]) is Some,
            match r {
                Ok(()) => {
                    &&& final(self).wf()
                    &&& final(self).assigned == old(self).assigned + 1
                    &&& final(self).nr == old(self).nr
                    &&& final(self).nc == old(self).nc
                    &&& final(self).cost == old(self).cost
                    &&& assign(old(self).matrix(), old(self).state(), old(self).assigned) == Some(
                        final(self).state(),
                    )
                },
                Err(e) => {
                    &&& e == LSAPError::Infeasible
                    &&& *final(self) == *old(self)
                    &&& assign(old(self).matrix(), old(self).state(), old(self).assigned) is None
                },
            },
    {
        match self.augmenting_path() {
            None => Err(LSAPError::Infeasible),
            Some((t, sink)) => {
                let ghost stamp = choose|stamp: Seq<int>|
                    found(
                        self.matrix(),
                        self.state(),
                        self.assigned as nat,
                        t@,
                        sink as int,
                        stamp,
                    );
                self.update_duals(&t, Ghost(sink as int), Ghost(stamp));
                self.augment(&t, sink, Ghost(stamp));
                self.assigned = self.assigned + 1;
                Ok(())
            },
        }
    }
}

} // verus!
