//! The solver as mathematics: the working matrix, the dual potentials and the
//! partial assignment, and each step of the search as a function on them.

use vstd::prelude::*;

verus! {

/// The largest magnitude of an entry of the working matrix: 2^63.
pub open spec fn limit() -> int {
    0x8000_0000_0000_0000
}

/// A cost matrix in row-major order, to be minimised over.
pub struct Matrix {
    pub nr: nat,
    pub nc: nat,
    pub w: Seq<int>,
}

impl Matrix {
    /// The entry at row `i` and column `j`.
    pub open spec fn at(self, i: int, j: int) -> int {
        self.w[i * self.nc + j]
    }

    /// The entries fill the matrix, its sides can be counted by the machine,
    /// and no entry exceeds the limit.
    pub open spec fn wf(self) -> bool {
        &&& self.nr <= usize::MAX
        &&& self.nc <= usize::MAX
        &&& self.w.len() == self.nr * self.nc
        &&& forall|i: int, j: int|
            0 <= i < self.nr && 0 <= j < self.nc ==> -limit() <= #[trigger] self.at(i, j)
                <= limit()
    }
}

/// Dual potentials and the partial assignment between rows and columns.
pub struct State {
    pub u: Seq<int>,
    pub v: Seq<int>,
    pub col4row: Seq<Option<usize>>,
    pub row4col: Seq<Option<usize>>,
}

impl State {
    /// The cost of pairing row `i` with column `j`, less both potentials.
    pub open spec fn reduced(self, m: Matrix, i: int, j: int) -> int {
        m.at(i, j) - self.u[i] - self.v[j]
    }
}

/// No row assigned, all potentials zero.
pub open spec fn initial(m: Matrix) -> State {
    State {
        u: Seq::new(m.nr, |i: int| 0int),
        v: Seq::new(m.nc, |j: int| 0int),
        col4row: Seq::new(m.nr, |i: int| None::<usize>),
        row4col: Seq::new(m.nc, |j: int| None::<usize>),
    }
}

/// The shortest-path tree grown from one row. `spc[j]` is the length of the
/// shortest known path to column `j` (`None` while none is known), `path[j]`
/// the row before `j` on it, `sr` and `sc` the rows scanned and the columns
/// left behind, `remaining` the columns still to reach, in the order in which
/// they are looked at, `row` the row to scan next and `min_val` its distance.
pub struct Search {
    pub spc: Seq<Option<int>>,
    pub path: Seq<Option<usize>>,
    pub sr: Seq<bool>,
    pub sc: Seq<bool>,
    pub remaining: Seq<usize>,
    pub row: usize,
    pub min_val: int,
}

/// The search before its first scan. The columns stand in descending order.
pub open spec fn start(m: Matrix, row: usize) -> Search {
    Search {
        spc: Seq::new(m.nc, |j: int| None::<int>),
        path: Seq::new(m.nc, |j: int| None::<usize>),
        sr: Seq::new(m.nr, |i: int| false),
        sc: Seq::new(m.nc, |j: int| false),
        remaining: Seq::new(m.nc, |t: int| (m.nc - 1 - t) as usize),
        row,
        min_val: 0,
    }
}

/// The length of the path to column `j` through the row being scanned.
pub open spec fn candidate(m: Matrix, s: State, q: Search, j: int) -> int {
    q.min_val + s.reduced(m, q.row as int, j)
}

/// Whether the scan of `q.row` shortens the path to column `j`.
pub open spec fn improves(m: Matrix, s: State, q: Search, j: int) -> bool {
    !q.sc[j] && match q.spc[j] {
        None => true,
        Some(d) => candidate(m, s, q, j) < d,
    }
}

/// The scan of `q.row`: every column still to reach takes the shorter of its
/// known path and the one through `q.row`.
pub open spec fn relax(m: Matrix, s: State, q: Search) -> Search {
    Search {
        spc: Seq::new(
            q.spc.len(),
            |j: int|
                if improves(m, s, q, j) {
                    Some(candidate(m, s, q, j))
                } else {
                    q.spc[j]
                },
        ),
        path: Seq::new(
            q.path.len(),
            |j: int|
                if improves(m, s, q, j) {
                    Some(q.row)
                } else {
                    q.path[j]
                },
        ),
        sr: q.sr.update(q.row as int, true),
        ..q
    }
}

/// Whether a column at distance `d` replaces the best so far, at distance
/// `low`: it does when it is nearer, or equally near and free.
pub open spec fn precedes(d: Option<int>, low: Option<int>, free: bool) -> bool {
    match (d, low) {
        (Some(x), Some(y)) => x < y || (x == y && free),
        (Some(_), None) => true,
        (None, Some(_)) => false,
        (None, None) => free,
    }
}

/// The nearest of the first `n` remaining columns, as its distance and its
/// place in `remaining`. Among equally near columns a free one wins, and of
/// those the last looked at; with no free one among them, the first.
pub open spec fn select(
    spc: Seq<Option<int>>,
    row4col: Seq<Option<usize>>,
    remaining: Seq<usize>,
    n: nat,
) -> (Option<int>, int)
    decreases n,
{
    if n == 0 {
        (None, -1)
    } else {
        let prev = select(spc, row4col, remaining, (n - 1) as nat);
        let j = remaining[n - 1] as int;
        if precedes(spc[j], prev.0, row4col[j] is None) {
            (spc[j], n - 1)
        } else {
            prev
        }
    }
}

/// `r` without its entry at `k`, the last entry moved into the gap.
pub open spec fn swap_remove(r: Seq<usize>, k: int) -> Seq<usize> {
    Seq::new(
        (r.len() - 1) as nat,
        |t: int|
            if t == k {
                r[r.len() - 1]
            } else {
                r[t]
            },
    )
}

/// The search after the scan `r` has left column `remaining[k]`, at distance `d`, behind.
pub open spec fn leave(r: Search, k: int, d: int) -> Search {
    Search {
        min_val: d,
        sc: r.sc.update(r.remaining[k] as int, true),
        remaining: swap_remove(r.remaining, k),
        ..r
    }
}

/// The search run to its end from `q`: the final tree and the free column it
/// reached, or `None` when the columns run out first.
pub open spec fn search(m: Matrix, s: State, q: Search) -> Option<(Search, usize)>
    decreases q.remaining.len(),
{
    let r = relax(m, s, q);
    let pick = select(r.spc, s.row4col, r.remaining, r.remaining.len());
    if pick.0 is None || q.remaining.len() == 0 {
        None
    } else {
        let j = r.remaining[pick.1];
        let next = leave(r, pick.1, pick.0.unwrap());
        match s.row4col[j as int] {
            None => Some((next, j)),
            Some(i) => search(m, s, Search { row: i, ..next }),
        }
    }
}

/// The distance at which the tree `q`, grown from `root`, reached row `i`.
pub open spec fn dist(s: State, q: Search, root: int, i: int) -> int {
    if i == root {
        0
    } else {
        q.spc[s.col4row[i].unwrap() as int].unwrap()
    }
}

/// The potentials after the tree `q` from `root` has reached a free column at
/// distance `q.min_val`.
pub open spec fn update_duals(s: State, q: Search, root: int) -> State {
    State {
        u: Seq::new(
            s.u.len(),
            |i: int|
                if i == root || q.sr[i] {
                    s.u[i] + q.min_val - dist(s, q, root, i)
                } else {
                    s.u[i]
                },
        ),
        v: Seq::new(
            s.v.len(),
            |j: int|
                if q.sc[j] {
                    s.v[j] - (q.min_val - q.spc[j].unwrap())
                } else {
                    s.v[j]
                },
        ),
        ..s
    }
}

/// Column `j` given to the row before it on the path.
pub open spec fn flip(path: Seq<Option<usize>>, s: State, j: usize) -> State {
    let i = path[j as int].unwrap();
    State {
        row4col: s.row4col.update(j as int, Some(i)),
        col4row: s.col4row.update(i as int, Some(j)),
        ..s
    }
}

/// The assignment flipped along the path from column `j` back to `root`, in
/// at most `fuel` steps.
pub open spec fn augment(
    path: Seq<Option<usize>>,
    s: State,
    j: usize,
    root: usize,
    fuel: nat,
) -> State
    decreases fuel,
{
    if fuel == 0 {
        s
    } else {
        let i = path[j as int].unwrap();
        let t = flip(path, s, j);
        if i == root {
            t
        } else {
            augment(path, t, s.col4row[i as int].unwrap(), root, (fuel - 1) as nat)
        }
    }
}

/// One more row assigned, or `None` where no free column can be reached.
pub open spec fn assign(m: Matrix, s: State, root: usize) -> Option<State> {
    match search(m, s, start(m, root)) {
        None => None,
        Some((q, sink)) => Some(
            augment(q.path, update_duals(s, q, root as int), sink, root, m.nc),
        ),
    }
}

/// The rows from `from` on assigned in turn.
pub open spec fn assign_rows(m: Matrix, s: State, from: nat) -> Option<State>
    decreases m.nr - from,
{
    if from >= m.nr {
        Some(s)
    } else {
        match assign(m, s, from as usize) {
            None => None,
            Some(t) => assign_rows(m, t, from + 1),
        }
    }
}

} // verus!
