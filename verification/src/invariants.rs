//! What holds of the solver's state between rows, and of the shortest-path
//! tree while it grows.

use vstd::prelude::*;
use crate::model::{dist, limit, select, Matrix, Search, State};

verus! {

/// The number of entries of `s` that hold an index.
pub open spec fn matched(s: Seq<Option<usize>>) -> nat
    decreases s.len(),
{
    if s.len() == 0 {
        0
    } else {
        matched(s.drop_last()) + if s.last() is Some {
            1nat
        } else {
            0nat
        }
    }
}

/// The four sequences have the lengths that the matrix asks for.
pub open spec fn shaped(m: Matrix, s: State) -> bool {
    &&& s.u.len() == m.nr
    &&& s.v.len() == m.nc
    &&& s.col4row.len() == m.nr
    &&& s.row4col.len() == m.nc
}

/// `col4row` and `row4col` describe one partial pairing: each names the
/// other's partner.
pub open spec fn paired(m: Matrix, s: State) -> bool {
    &&& forall|i: int|
        0 <= i < m.nr ==> (#[trigger] s.col4row[i] matches Some(j) ==> j < m.nc
            && s.row4col[j as int] == Some(i as usize))
    &&& forall|j: int|
        0 <= j < m.nc ==> (#[trigger] s.row4col[j] matches Some(i) ==> i < m.nr
            && s.col4row[i as int] == Some(j as usize))
}

/// The potentials are feasible for the first `k` rows, tight on the assigned
/// pairs, zero on free columns and rows not yet assigned, and bounded.
pub open spec fn potentials_ok(m: Matrix, s: State, k: nat) -> bool {
    &&& forall|i: int| 0 <= i < m.nr ==> -limit() <= #[trigger] s.u[i] <= 3 * limit()
    &&& forall|i: int| k <= i < m.nr ==> #[trigger] s.u[i] == 0
    &&& forall|j: int| 0 <= j < m.nc ==> -4 * limit() <= #[trigger] s.v[j] <= 0
    &&& forall|j: int| 0 <= j < m.nc && #[trigger] s.row4col[j] is None ==> s.v[j] == 0
    &&& forall|i: int, j: int| 0 <= i < k && 0 <= j < m.nc ==> #[trigger] s.reduced(m, i, j) >= 0
    &&& forall|i: int|
        0 <= i < k ==> s.reduced(m, i, (#[trigger] s.col4row[i]).unwrap() as int) == 0
}

/// The state after the first `k` rows have been assigned.
pub open spec fn state_wf(m: Matrix, s: State, k: nat) -> bool {
    &&& m.wf()
    &&& k <= m.nr
    &&& shaped(m, s)
    &&& paired(m, s)
    &&& forall|i: int| 0 <= i < m.nr ==> (#[trigger] s.col4row[i] is Some <==> i < k)
    &&& matched(s.row4col) == k
    &&& potentials_ok(m, s, k)
}

/// The tree's sequences have the lengths that the matrix asks for.
pub open spec fn tree_shaped(m: Matrix, q: Search, stamp: Seq<int>) -> bool {
    &&& q.spc.len() == m.nc
    &&& q.path.len() == m.nc
    &&& q.sc.len() == m.nc
    &&& q.sr.len() == m.nr
    &&& stamp.len() == m.nc
    &&& q.remaining.len() <= m.nc
}

/// `remaining` lists each column not yet left behind, once.
pub open spec fn remaining_ok(m: Matrix, q: Search) -> bool {
    &&& forall|t: int|
        0 <= t < q.remaining.len() ==> (#[trigger] q.remaining[t]) < m.nc
            && !q.sc[q.remaining[t] as int]
    &&& forall|a: int, b: int|
        0 <= a < b < q.remaining.len() ==> q.remaining[a] != q.remaining[b]
    &&& forall|j: int|
        0 <= j < m.nc && !(#[trigger] q.sc[j]) ==> q.remaining.contains(j as usize)
}

/// What holds of the tree from `root` whether or not it has reached a free
/// column. `stamp[j]` counts the columns left behind up to and including `j`.
pub open spec fn tree(m: Matrix, s: State, root: int, q: Search, stamp: Seq<int>) -> bool {
    &&& tree_shaped(m, q, stamp)
    &&& remaining_ok(m, q)
    &&& -limit() <= q.min_val <= 5 * limit()
    &&& forall|j: int|
        0 <= j < m.nc ==> (#[trigger] q.spc[j] matches Some(x) ==> -limit() <= x <= 11 * limit())
    // columns left behind are no farther than the frontier
    &&& forall|j: int|
        0 <= j < m.nc && #[trigger] q.sc[j] ==> q.spc[j] is Some && q.spc[j].unwrap() <= q.min_val
            && 1 <= stamp[j] <= m.nc - q.remaining.len()
    // columns still to reach are no nearer
    &&& forall|j: int|
        0 <= j < m.nc && !q.sc[j] ==> (#[trigger] q.spc[j] matches Some(x) ==> x >= q.min_val)
    // a scanned row other than the root came in through its column
    &&& forall|i: int|
        0 <= i < m.nr && #[trigger] q.sr[i] && i != root ==> s.col4row[i] is Some
            && q.sc[s.col4row[i].unwrap() as int]
    // each known path ends in an edge from a scanned row, and its length is exact
    &&& forall|j: int|
        0 <= j < m.nc ==> (#[trigger] q.spc[j] matches Some(x) ==> q.path[j] is Some
            && q.path[j].unwrap() < m.nr && q.sr[q.path[j].unwrap() as int] && x == dist(
            s,
            q,
            root,
            q.path[j].unwrap() as int,
        ) + s.reduced(m, q.path[j].unwrap() as int, j))
    // no edge out of a scanned row would shorten a known path
    &&& forall|i: int, j: int|
        0 <= i < m.nr && 0 <= j < m.nc && #[trigger] q.sr[i] ==> (#[trigger] q.spc[j]) is Some
            && q.spc[j].unwrap() <= dist(s, q, root, i) + s.reduced(m, i, j)
    // walking back along `path` the stamps fall
    &&& forall|j: int|
        0 <= j < m.nc && #[trigger] q.sc[j] ==> q.path[j].unwrap() == root || {
            let c = s.col4row[q.path[j].unwrap() as int];
            c is Some && c.unwrap() < m.nc && q.sc[c.unwrap() as int] && stamp[c.unwrap() as int]
                < stamp[j]
        }
}

/// What holds besides while the tree still grows: `q.row` waits to be scanned.
pub open spec fn frontier(m: Matrix, s: State, root: int, q: Search) -> bool {
    &&& q.row < m.nr
    &&& !q.sr[q.row as int]
    &&& dist(s, q, root, q.row as int) == q.min_val
    &&& q.row == root ==> q.min_val == 0 && forall|j: int| 0 <= j < m.nc ==> !(#[trigger] q.sc[j])
    &&& q.row != root ==> q.sr[root] && s.col4row[q.row as int] is Some && q.sc[s.col4row[q.row as int].unwrap() as int]
    &&& forall|j: int|
        0 <= j < m.nc && #[trigger] q.sc[j] ==> s.row4col[j] is Some && (q.sr[s.row4col[j].unwrap() as int]
            || s.row4col[j].unwrap() == q.row)
}

/// What holds besides once the tree has reached the free column `sink`.
pub open spec fn arrived(m: Matrix, s: State, root: int, q: Search, sink: int) -> bool {
    &&& 0 <= sink < m.nc
    &&& q.sc[sink]
    &&& s.row4col[sink] is None
    &&& q.spc[sink] == Some(q.min_val)
    &&& q.sr[root]
    &&& forall|j: int| 0 <= j < m.nc ==> (#[trigger] q.spc[j]) is Some
    &&& forall|j: int|
        0 <= j < m.nc && #[trigger] q.sc[j] && j != sink ==> s.row4col[j] is Some
            && q.sr[s.row4col[j].unwrap() as int]
}

/// The tree from row `k`, still growing, over the state after `k` rows.
pub open spec fn growing(m: Matrix, s: State, k: nat, q: Search, stamp: Seq<int>) -> bool {
    &&& state_wf(m, s, k)
    &&& k < m.nr
    &&& tree(m, s, k as int, q, stamp)
    &&& frontier(m, s, k as int, q)
}

/// The tree from row `k` with the free column `sink` at its end.
pub open spec fn found(m: Matrix, s: State, k: nat, q: Search, sink: int, stamp: Seq<int>) -> bool {
    &&& state_wf(m, s, k)
    &&& k < m.nr
    &&& tree(m, s, k as int, q, stamp)
    &&& arrived(m, s, k as int, q, sink)
}

/// An index into the matrix lies within it.
pub proof fn lemma_cell_index(nr: int, nc: int, i: int, j: int)
    requires
        0 <= i < nr,
        0 <= j < nc,
    ensures
        0 <= i * nc + j < nr * nc,
{
    assert(i * nc >= 0) by (nonlinear_arith)
        requires
            i >= 0,
            nc >= 0,
    ;
    assert(i * nc + nc <= nr * nc) by (nonlinear_arith)
        requires
            i + 1 <= nr,
            nc >= 0,
    ;
}

/// Over columns that all have a distance, `select` returns the least distance
/// and a place at which it stands.
pub proof fn lemma_select(
    spc: Seq<Option<int>>,
    row4col: Seq<Option<usize>>,
    remaining: Seq<usize>,
    n: nat,
)
    requires
        n <= remaining.len(),
        forall|t: int| 0 <= t < n ==> spc[(#[trigger] remaining[t]) as int] is Some,
    ensures
        n == 0 ==> select(spc, row4col, remaining, n) == (None::<int>, -1int),
        n > 0 ==> {
            let pick = select(spc, row4col, remaining, n);
            &&& pick.0 is Some
            &&& 0 <= pick.1 < n
            &&& spc[remaining[pick.1] as int] == pick.0
            &&& forall|t: int|
                0 <= t < n ==> pick.0.unwrap() <= spc[(#[trigger] remaining[t]) as int].unwrap()
        },
    decreases n,
{
    if n > 0 {
        lemma_select(spc, row4col, remaining, (n - 1) as nat);
        let j = remaining[n - 1];
        assert(spc[j as int] is Some);
    }
}

} // verus!
