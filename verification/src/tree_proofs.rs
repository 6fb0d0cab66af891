//! One step of the search keeps the tree's invariant.

use vstd::prelude::*;
use crate::model::{
    candidate, dist, improves, leave, limit, relax, select, start, Matrix, Search, State,
};
use crate::invariants::{
    arrived, found, frontier, growing, lemma_select, remaining_ok, state_wf, tree, tree_shaped,
};

verus! {

/// The nearest remaining column after the scan of `q.row`: its distance and its place.
pub open spec fn pick_of(m: Matrix, s: State, q: Search) -> (Option<int>, int) {
    select(relax(m, s, q).spc, s.row4col, q.remaining, q.remaining.len())
}

/// The column that the step from `q` leaves behind.
pub open spec fn step_column(m: Matrix, s: State, q: Search) -> usize {
    q.remaining[pick_of(m, s, q).1]
}

/// The tree after the scan of `q.row` and with the nearest column left behind.
pub open spec fn step(m: Matrix, s: State, q: Search) -> Search {
    leave(relax(m, s, q), pick_of(m, s, q).1, pick_of(m, s, q).0.unwrap())
}

/// The stamps after the step from `q`.
pub open spec fn restamp(m: Matrix, s: State, q: Search, stamp: Seq<int>) -> Seq<int> {
    stamp.update(step_column(m, s, q) as int, m.nc - q.remaining.len() + 1)
}

/// Reduced costs stay within six times the limit.
pub proof fn lemma_reduced_bounds(m: Matrix, s: State, k: nat, i: int, j: int)
    requires
        state_wf(m, s, k),
        0 <= i < m.nr,
        0 <= j < m.nc,
    ensures
        -4 * limit() <= s.reduced(m, i, j) <= 6 * limit(),
        i >= k ==> -limit() <= s.reduced(m, i, j) <= 5 * limit(),
{
    assert(-limit() <= m.at(i, j) <= limit());
    assert(-limit() <= s.u[i] <= 3 * limit());
    assert(-4 * limit() <= s.v[j] <= 0);
}

/// What the scan and the choice of the nearest column give.
pub proof fn lemma_scan(m: Matrix, s: State, k: nat, q: Search, stamp: Seq<int>)
    requires
        growing(m, s, k, q, stamp),
        q.remaining.len() > 0,
    ensures
        pick_of(m, s, q).0 is Some,
        0 <= pick_of(m, s, q).1 < q.remaining.len(),
        step_column(m, s, q) < m.nc,
        !q.sc[step_column(m, s, q) as int],
        relax(m, s, q).spc[step_column(m, s, q) as int] == pick_of(m, s, q).0,
        -limit() <= pick_of(m, s, q).0.unwrap() <= 5 * limit(),
        q.row != k ==> q.min_val <= pick_of(m, s, q).0.unwrap(),
        q.row != k ==> q.row < k,
        forall|j: int|
            0 <= j < m.nc && !q.sc[j] ==> (#[trigger] relax(m, s, q).spc[j]) is Some && pick_of(
                m,
                s,
                q,
            ).0.unwrap() <= relax(m, s, q).spc[j].unwrap(),
        forall|j: int|
            0 <= j < m.nc ==> (#[trigger] relax(m, s, q).spc[j] matches Some(x) ==> -limit() <= x
                <= 11 * limit()),
{
    let r = relax(m, s, q);
    let n = q.remaining.len();
    let root = k as int;
    if q.row != k {
        assert(s.col4row[q.row as int] is Some);
    }
    assert forall|j: int| 0 <= j < m.nc implies -limit() <= candidate(m, s, q, j) <= 11 * limit()
        && (q.row != k ==> candidate(m, s, q, j) >= q.min_val) && (q.row == k ==> candidate(
        m,
        s,
        q,
        j,
    ) <= 5 * limit()) by {
        lemma_reduced_bounds(m, s, k, q.row as int, j);
        if q.row != k {
            assert(s.reduced(m, q.row as int, j) >= 0);
        }
    }
    assert forall|t: int| 0 <= t < n implies r.spc[(#[trigger] q.remaining[t]) as int] is Some by {
        assert(!q.sc[q.remaining[t] as int]);
    }
    lemma_select(r.spc, s.row4col, q.remaining, n);
    let pick = pick_of(m, s, q);
    let low = pick.0.unwrap();
    let jstar = q.remaining[pick.1] as int;
    assert(!q.sc[jstar]);
    assert forall|j: int| 0 <= j < m.nc && !q.sc[j] implies (#[trigger] r.spc[j]) is Some && low
        <= r.spc[j].unwrap() by {
        assert(q.remaining.contains(j as usize));
        let t = choose|t: int| 0 <= t < n && q.remaining[t] == j as usize;
        assert(low <= r.spc[q.remaining[t] as int].unwrap());
    }
    assert forall|j: int| 0 <= j < m.nc implies (#[trigger] r.spc[j] matches Some(x) ==> -limit()
        <= x <= 11 * limit()) by {
        if improves(m, s, q, j) {
        } else {
            assert(r.spc[j] == q.spc[j]);
        }
    }
    // the nearest column is no farther than its edge from the root
    if q.row == k {
        assert(r.spc[jstar].unwrap() <= candidate(m, s, q, jstar));
    } else {
        assert(q.sr[root]);
        assert(q.spc[jstar] is Some && q.spc[jstar].unwrap() <= dist(s, q, root, root) + s.reduced(
            m,
            root,
            jstar,
        ));
        lemma_reduced_bounds(m, s, k, root, jstar);
    }
}

/// The step keeps what holds of every tree.
pub proof fn lemma_step_tree(m: Matrix, s: State, k: nat, q: Search, stamp: Seq<int>)
    requires
        growing(m, s, k, q, stamp),
        q.remaining.len() > 0,
    ensures
        tree(m, s, k as int, step(m, s, q), restamp(m, s, q, stamp)),
{
    lemma_scan(m, s, k, q, stamp);
    let r = relax(m, s, q);
    let n = q.remaining.len();
    let root = k as int;
    let pick = pick_of(m, s, q);
    let low = pick.0.unwrap();
    let idx = pick.1;
    let jstar = q.remaining[idx] as int;
    let next = step(m, s, q);
    let stamp2 = restamp(m, s, q, stamp);
    assert(tree_shaped(m, next, stamp2));
    // the rows reached so far keep their distances
    assert forall|i: int| 0 <= i < m.nr && (q.sr[i] || i == q.row) implies dist(s, next, root, i)
        == dist(s, q, root, i) by {
        if i != root {
            let c = s.col4row[i].unwrap() as int;
            assert(q.sc[c]);
            assert(!improves(m, s, q, c));
        }
    }
    assert(remaining_ok(m, next)) by {
        assert forall|t: int| 0 <= t < next.remaining.len() implies (#[trigger] next.remaining[t])
            < m.nc && !next.sc[next.remaining[t] as int] by {
            if t == idx {
                assert(q.remaining[n - 1] != q.remaining[idx]);
            } else {
                assert(q.remaining[t] != q.remaining[idx]);
            }
        }
        assert forall|a: int, b: int| 0 <= a < b < next.remaining.len() implies next.remaining[a]
            != next.remaining[b] by {
            if a == idx {
                assert(q.remaining[b] != q.remaining[n - 1]);
            } else if b == idx {
                assert(q.remaining[a] != q.remaining[n - 1]);
            } else {
                assert(q.remaining[a] != q.remaining[b]);
            }
        }
        assert forall|j: int| 0 <= j < m.nc && !(#[trigger] next.sc[j]) implies next.remaining.contains(
            j as usize,
        ) by {
            assert(!q.sc[j]);
            assert(q.remaining.contains(j as usize));
            let t = choose|t: int| 0 <= t < n && q.remaining[t] == j as usize;
            if t == n - 1 {
                assert(next.remaining[idx] == j as usize);
            } else {
                assert(next.remaining[t] == j as usize);
            }
        }
    }
    assert forall|j: int| 0 <= j < m.nc && #[trigger] next.sc[j] implies next.spc[j] is Some
        && next.spc[j].unwrap() <= next.min_val && 1 <= stamp2[j] <= m.nc
        - next.remaining.len() by {
        if j != jstar {
            assert(q.sc[j]);
            assert(q.row != k);
            assert(!improves(m, s, q, j));
        }
    }
    assert forall|j: int| 0 <= j < m.nc && !next.sc[j] implies (#[trigger] next.spc[j] matches Some(
        x,
    ) ==> x >= next.min_val) by {
        assert(!q.sc[j]);
        assert(r.spc[j] is Some);
    }
    assert forall|i: int| 0 <= i < m.nr && #[trigger] next.sr[i] && i != root implies s.col4row[i] is Some
        && next.sc[s.col4row[i].unwrap() as int] by {
        if i == q.row {
        } else {
            assert(q.sr[i]);
        }
    }
    assert forall|j: int| 0 <= j < m.nc implies (#[trigger] next.spc[j] matches Some(x)
        ==> next.path[j] is Some && next.path[j].unwrap() < m.nr && next.sr[next.path[j].unwrap() as int]
        && x == dist(s, next, root, next.path[j].unwrap() as int) + s.reduced(
        m,
        next.path[j].unwrap() as int,
        j,
    )) by {
        if next.spc[j] is Some {
            if improves(m, s, q, j) {
                assert(next.path[j] == Some(q.row));
                assert(dist(s, next, root, q.row as int) == q.min_val);
            } else {
                assert(q.spc[j] == next.spc[j]);
                assert(q.path[j] == next.path[j]);
                let p = q.path[j].unwrap() as int;
                assert(q.sr[p]);
                assert(dist(s, next, root, p) == dist(s, q, root, p));
            }
        }
    }
    assert forall|i: int, j: int|
        0 <= i < m.nr && 0 <= j < m.nc && #[trigger] next.sr[i] implies (#[trigger] next.spc[j]) is Some
            && next.spc[j].unwrap() <= dist(s, next, root, i) + s.reduced(m, i, j) by {
        assert(dist(s, next, root, i) == dist(s, q, root, i));
        if i == q.row {
            if q.sc[j] {
                assert(q.spc[j] is Some && q.spc[j].unwrap() <= q.min_val);
                assert(s.reduced(m, i, j) >= 0);
                assert(!improves(m, s, q, j));
            } else {
                assert(r.spc[j] is Some);
            }
        } else {
            assert(q.sr[i]);
            assert(q.spc[j] is Some && q.spc[j].unwrap() <= dist(s, q, root, i) + s.reduced(
                m,
                i,
                j,
            ));
        }
    }
    assert forall|j: int| 0 <= j < m.nc && #[trigger] next.sc[j] implies next.path[j].unwrap()
        == root || {
        let c = s.col4row[next.path[j].unwrap() as int];
        c is Some && c.unwrap() < m.nc && next.sc[c.unwrap() as int] && stamp2[c.unwrap() as int]
            < stamp2[j]
    } by {
        if j == jstar {
            assert(next.spc[j] is Some);
            let p = next.path[j].unwrap() as int;
            assert(next.sr[p]);
            if p != root {
                let c = s.col4row[p].unwrap() as int;
                if p == q.row {
                    assert(q.sc[c]);
                } else {
                    assert(q.sr[p]);
                    assert(q.sc[c]);
                }
                assert(stamp[c] <= m.nc - n);
            }
        } else {
            assert(q.sc[j]);
            assert(!improves(m, s, q, j));
            let p = q.path[j].unwrap() as int;
            if p != root {
                let c = s.col4row[p].unwrap() as int;
                assert(q.sc[c]);
            }
        }
    }
}

/// Where the column left behind has a row, that row is the next to scan.
pub proof fn lemma_step_frontier(m: Matrix, s: State, k: nat, q: Search, stamp: Seq<int>)
    requires
        growing(m, s, k, q, stamp),
        q.remaining.len() > 0,
        s.row4col[step_column(m, s, q) as int] is Some,
    ensures
        growing(
            m,
            s,
            k,
            Search { row: s.row4col[step_column(m, s, q) as int].unwrap(), ..step(m, s, q) },
            restamp(m, s, q, stamp),
        ),
{
    lemma_scan(m, s, k, q, stamp);
    lemma_step_tree(m, s, k, q, stamp);
    let root = k as int;
    let jstar = step_column(m, s, q) as int;
    let i = s.row4col[jstar].unwrap();
    let next = Search { row: i, ..step(m, s, q) };
    let stamp2 = restamp(m, s, q, stamp);
    assert(tree(m, s, root, next, stamp2));
    assert(s.col4row[i as int] == Some(jstar as usize));
    assert(i != root);
    if q.sr[i as int] {
        assert(q.sc[s.col4row[i as int].unwrap() as int]);
    }
    assert(!next.sr[i as int]);
    assert forall|j: int| 0 <= j < m.nc && #[trigger] next.sc[j] implies s.row4col[j] is Some && (
    next.sr[s.row4col[j].unwrap() as int] || s.row4col[j].unwrap() == next.row) by {
        if j != jstar {
            assert(q.sc[j]);
        }
    }
    assert(frontier(m, s, root, next));
}

/// Where the column left behind is free, the tree has arrived.
pub proof fn lemma_step_arrived(m: Matrix, s: State, k: nat, q: Search, stamp: Seq<int>)
    requires
        growing(m, s, k, q, stamp),
        q.remaining.len() > 0,
        s.row4col[step_column(m, s, q) as int] is None,
    ensures
        found(m, s, k, step(m, s, q), step_column(m, s, q) as int, restamp(m, s, q, stamp)),
{
    lemma_scan(m, s, k, q, stamp);
    lemma_step_tree(m, s, k, q, stamp);
    let root = k as int;
    let jstar = step_column(m, s, q) as int;
    let next = step(m, s, q);
    let r = relax(m, s, q);
    assert forall|j: int| 0 <= j < m.nc implies (#[trigger] next.spc[j]) is Some by {
        if q.sc[j] {
            assert(q.spc[j] is Some);
            assert(!improves(m, s, q, j));
        } else {
            assert(r.spc[j] is Some);
        }
    }
    assert forall|j: int| 0 <= j < m.nc && #[trigger] next.sc[j] && j != jstar implies s.row4col[j] is Some
        && next.sr[s.row4col[j].unwrap() as int] by {
        assert(q.sc[j]);
    }
    assert(arrived(m, s, root, next, jstar));
}

/// The tree before its first scan.
pub proof fn lemma_start(m: Matrix, s: State, k: nat)
    requires
        state_wf(m, s, k),
        k < m.nr,
    ensures
        growing(m, s, k, start(m, k as usize), Seq::new(m.nc, |j: int| 0int)),
{
    let q = start(m, k as usize);
    let stamp = Seq::new(m.nc, |j: int| 0int);
    assert(remaining_ok(m, q)) by {
        assert forall|j: int| 0 <= j < m.nc && !(#[trigger] q.sc[j]) implies q.remaining.contains(
            j as usize,
        ) by {
            assert(q.remaining[m.nc - 1 - j] == j as usize);
        }
    }
    assert(tree(m, s, k as int, q, stamp));
    assert(frontier(m, s, k as int, q));
}

/// A growing tree with no column left to reach has found every column taken.
pub proof fn lemma_exhausted(m: Matrix, s: State, k: nat, q: Search, stamp: Seq<int>)
    requires
        growing(m, s, k, q, stamp),
        q.remaining.len() == 0,
    ensures
        forall|j: int| 0 <= j < m.nc ==> (#[trigger] s.row4col[j]) is Some,
{
    assert forall|j: int| 0 <= j < m.nc implies (#[trigger] s.row4col[j]) is Some by {
        if !q.sc[j] {
            assert(q.remaining.contains(j as usize));
        }
    }
}

} // verus!
