//! The search for a shortest augmenting path from the next row to assign.

use vstd::prelude::*;
use crate::invariants::{found, growing};
use crate::matching::{filled, opt_ints, Matching};
use crate::model::{candidate, improves, precedes, relax, search, select, start, Search};
use crate::tree_proofs::{
    lemma_exhausted, lemma_reduced_bounds, lemma_scan, lemma_start, lemma_step_arrived,
    lemma_step_frontier, pick_of, restamp, step,
};

verus! {

/// The shortest-path tree of one search. `remaining` keeps its length; its
/// first `live` entries are the columns still to reach.
pub struct Tree {
    pub spc: Vec<Option<i128>>,
    pub path: Vec<Option<usize>>,
    pub sr: Vec<bool>,
    pub sc: Vec<bool>,
    pub remaining: Vec<usize>,
    pub live: usize,
    pub row: usize,
    pub min_val: i128,
}

impl View for Tree {
    type V = Search;

    /// The tree as the model has it: distances as integers, and of
    /// `remaining` the live entries only.
    open spec fn view(&self) -> Search {
        Search {
            spc: opt_ints(self.spc@),
            path: self.path@,
            sr: self.sr@,
            sc: self.sc@,
            remaining: self.remaining@.take(self.live as int),
            row: self.row,
            min_val: self.min_val as int,
        }
    }
}

impl Tree {
    /// The tree before the first scan, with the columns in descending order.
    pub(crate) fn start(nr: usize, nc: usize, row: usize) -> (t: Tree)
        ensures
            t.live == nc,
            t.remaining.len() == nc,
            t.spc@ == Seq::new(nc as nat, |j: int| None::<i128>),
            t.path@ == Seq::new(nc as nat, |j: int| None::<usize>),
            t.sr@ == Seq::new(nr as nat, |i: int| false),
            t.sc@ == Seq::new(nc as nat, |j: int| false),
            t.remaining@ == Seq::new(nc as nat, |a: int| (nc - 1 - a) as usize),
            t.row == row,
            t.min_val == 0,
    {
        let mut remaining: Vec<usize> = Vec::with_capacity(nc);
        let mut it: usize = 0;
        while it < nc
            invariant
                it <= nc,
                remaining@ == Seq::new(it as nat, |a: int| (nc - 1 - a) as usize),
            decreases nc - it,
        {
            remaining.push(nc - it - 1);
            it += 1;
            assert(remaining@ =~= Seq::new(it as nat, |a: int| (nc - 1 - a) as usize));
        }
        Tree {
            spc: filled(nc, None::<i128>),
            path: filled(nc, None::<usize>),
            sr: filled(nr, false),
            sc: filled(nc, false),
            remaining,
            live: nc,
            row,
            min_val: 0,
        }
    }
}

impl Matching {
    /// Scans the row `t.row`: shortens the paths to the columns still to
    /// reach, and returns the distance of the nearest of them and its place
    /// in `remaining`.
    pub(crate) fn scan(&self, t: &mut Tree, Ghost(stamp): Ghost<Seq<int>>) -> (r: (i128, usize))
        requires
            growing(self.matrix(), self.state(), self.assigned as nat, old(t)@, stamp),
            old(t).live > 0,
            old(t).remaining.len() == self.nc,
            old(t).live <= self.nc,
        ensures
            final(t)@ == relax(self.matrix(), self.state(), old(t)@),
            final(t).live == old(t).live,
            final(t).remaining@ == old(t).remaining@,
            final(t).row == old(t).row,
            final(t).min_val == old(t).min_val,
            pick_of(self.matrix(), self.state(), old(t)@) == (Some(r.0 as int), r.1 as int),
    {
        let ghost m = self.matrix();
        let ghost s = self.state();
        let ghost q0 = t@;
        let ghost goal = relax(m, s, q0);
        let ghost spc0 = t.spc@;
        let ghost path0 = t.path@;
        let ghost rem0 = t.remaining@;
        let i = t.row;
        let n = t.live;
        t.sr[i] = true;
        let mut lowest: i128 = 0;
        let mut index: usize = 0;
        let mut it: usize = 0;
        while it < n
            invariant
                growing(m, s, self.assigned as nat, q0, stamp),
                m == self.matrix(),
                s == self.state(),
                goal == relax(m, s, q0),
                q0.spc == opt_ints(spc0),
                q0.path == path0,
                q0.row == i,
                q0.min_val == t.min_val,
                q0.remaining == t.remaining@.take(n as int),
                q0.sc == t.sc@,
                t.sr@ == goal.sr,
                t.row == i,
                t.live == n,
                0 < n <= self.nc,
                t.remaining.len() == self.nc,
                t.spc.len() == self.nc,
                t.path.len() == self.nc,
                it <= n,
                t.remaining@ == rem0,
                forall|a: int|
                    0 <= a < it ==> opt_ints(t.spc@)[(#[trigger] q0.remaining[a]) as int]
                        == goal.spc[q0.remaining[a] as int] && t.path[q0.remaining[a] as int]
                        == goal.path[q0.remaining[a] as int],
                forall|a: int|
                    it <= a < n ==> t.spc[(#[trigger] q0.remaining[a]) as int]
                        == spc0[q0.remaining[a] as int] && t.path[q0.remaining[a] as int]
                        == path0[q0.remaining[a] as int],
                forall|j: int|
                    0 <= j < self.nc && #[trigger] q0.sc[j] ==> t.spc[j] == spc0[j] && t.path[j]
                        == path0[j],
                it > 0 ==> select(goal.spc, s.row4col, q0.remaining, it as nat) == (
                    Some(lowest as int),
                    index as int,
                ),
            decreases n - it,
        {
            let j = t.remaining[it];
            proof {
                assert(q0.remaining[it as int] == j);
                assert(j < self.nc && !q0.sc[j as int]);
                lemma_reduced_bounds(m, s, self.assigned as nat, i as int, j as int);
                assert(t.spc[j as int] == spc0[j as int]);
                assert(q0.spc[j as int] == opt_ints(spc0)[j as int]);
            }
            let c = self.cell(i, j);
            let r = t.min_val + c - self.u[i] - self.v[j];
            assert(r == candidate(m, s, q0, j as int));
            let shorter = match t.spc[j] {
                Some(known) => r < known,
                None => true,
            };
            assert(shorter == improves(m, s, q0, j as int));
            let d = if shorter {
                t.path[j] = Some(i);
                t.spc[j] = Some(r);
                r
            } else {
                t.spc[j].unwrap()
            };
            assert(goal.spc[j as int] == Some(d as int));
            assert(opt_ints(t.spc@)[j as int] == goal.spc[j as int]);
            let free = self.row4col[j].is_none();
            proof {
                let prev = select(goal.spc, s.row4col, q0.remaining, it as nat);
                assert(select(goal.spc, s.row4col, q0.remaining, (it + 1) as nat) == if precedes(
                    goal.spc[j as int],
                    prev.0,
                    s.row4col[j as int] is None,
                ) {
                    (goal.spc[j as int], it as int)
                } else {
                    prev
                });
                assert forall|a: int| 0 <= a < n && a != it implies q0.remaining[a] != j by {
                    if a < it {
                        assert(q0.remaining[a] != q0.remaining[it as int]);
                    } else {
                        assert(q0.remaining[it as int] != q0.remaining[a]);
                    }
                }
            }
            if it == 0 || d < lowest || (d == lowest && free) {
                lowest = d;
                index = it;
            }
            it += 1;
        }
        proof {
            assert(q0.remaining.len() == n);
            assert(opt_ints(t.spc@) =~= goal.spc && t.path@ =~= goal.path) by {
                assert forall|j: int| 0 <= j < self.nc implies opt_ints(t.spc@)[j] == goal.spc[j]
                    && t.path@[j] == goal.path[j] by {
                    if q0.sc[j] {
                        assert(!improves(m, s, q0, j));
                    } else {
                        assert(q0.remaining.contains(j as usize));
                        let a = choose|a: int| 0 <= a < n && q0.remaining[a] == j as usize;
                        assert(q0.remaining[a] as int == j);
                    }
                }
            }
            assert(t@.remaining == goal.remaining);
        }
        (lowest, index)
    }

    /// Grows the shortest-path tree from the next row to assign until it
    /// reaches a free column. Returns the tree, which holds the distance of
    /// that column in `min_val`, and the column; or `None` where every column
    /// is taken.
    pub fn augmenting_path(&self) -> (r: Option<(Tree, usize)>)
        requires
            self.wf(),
            self.assigned < self.nr,
        ensures
            r is None <==> forall|j: int| 0 <= j < self.nc ==> (#[trigger] self.row4col[j]) is Some,
            match r {
                Some((t, sink)) => {
                    &&& search(
                        self.matrix(),
                        self.state(),
                        start(self.matrix(), self.assigned),
                    ) == Some((t@, sink))
                    &&& exists|stamp: Seq<int>|
                        found(
                            self.matrix(),
                            self.state(),
                            self.assigned as nat,
                            t@,
                            sink as int,
                            stamp,
                        )
                    &&& sink < self.nc
                    &&& self.row4col[sink as int] is None
                    &&& t.spc.len() == self.nc
                    &&& t.path.len() == self.nc
                    &&& t.sr.len() == self.nr
                    &&& t.sc.len() == self.nc
                },
                None => {
                    &&& search(self.matrix(), self.state(), start(self.matrix(), self.assigned))
                        is None
                    &&& forall|j: int| 0 <= j < self.nc ==> (#[trigger] self.row4col[j]) is Some
                },
            },
    {
        let ghost m = self.matrix();
        let ghost s = self.state();
        let ghost k = self.assigned as nat;
        let mut t = Tree::start(self.nr, self.nc, self.assigned);
        let ghost mut stamp = Seq::new(self.nc as nat, |j: int| 0int);
        proof {
            lemma_start(m, s, k);
            assert(t@.spc =~= start(m, self.assigned).spc);
            assert(t@.remaining =~= start(m, self.assigned).remaining);
            assert(t@ == start(m, self.assigned));
        }
        loop
            invariant
                m == self.matrix(),
                s == self.state(),
                k == self.assigned,
                growing(m, s, k, t@, stamp),
                search(m, s, t@) == search(m, s, start(m, self.assigned)),
                t.remaining.len() == self.nc,
                t.live <= self.nc,
            decreases t.live,
        {
            if t.live == 0 {
                proof {
                    lemma_exhausted(m, s, k, t@, stamp);
                }
                return None;
            }
            let ghost q = t@;
            let (low, index) = self.scan(&mut t, Ghost(stamp));
            proof {
                lemma_scan(m, s, k, q, stamp);
            }
            let j = t.remaining[index];
            assert(j == q.remaining[index as int]);
            t.min_val = low;
            t.sc[j] = true;
            t.live = t.live - 1;
            let last = t.remaining[t.live];
            t.remaining[index] = last;
            proof {
                assert(t@.remaining =~= step(m, s, q).remaining);
                assert(t@.spc == step(m, s, q).spc);
                assert(t@ == step(m, s, q));
            }
            match self.row4col[j] {
                None => {
                    proof {
                        lemma_step_arrived(m, s, k, q, stamp);
                        stamp = restamp(m, s, q, stamp);
                        assert(found(m, s, k, t@, j as int, stamp));
                    }
                    return Some((t, j));
                },
                Some(i) => {
                    proof {
                        lemma_step_frontier(m, s, k, q, stamp);
                        stamp = restamp(m, s, q, stamp);
                    }
                    t.row = i;
                },
            }
        }
    }
}

} // verus!
