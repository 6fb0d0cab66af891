//! The update of the potentials and the walk back along the path take a
//! well-formed state to a well-formed state with one more row assigned.

use vstd::prelude::*;
use crate::model::{dist, flip, initial, limit, update_duals, Matrix, Search, State};
use crate::invariants::{found, matched, paired, potentials_ok, shaped, state_wf};

verus! {

/// Writing one entry changes the count by what that entry changes.
pub proof fn lemma_matched_update(s: Seq<Option<usize>>, j: int, x: Option<usize>)
    requires
        0 <= j < s.len(),
    ensures
        matched(s.update(j, x)) + (if s[j] is Some { 1int } else { 0int }) == matched(s) + (if x is Some { 1int } else { 0int }),
    decreases s.len(),
{
    let t = s.update(j, x);
    if j == s.len() - 1 {
        assert(t.drop_last() =~= s.drop_last());
    } else {
        lemma_matched_update(s.drop_last(), j, x);
        assert(t.drop_last() =~= s.drop_last().update(j, x));
    }
}

/// Where fewer entries hold an index than there are entries, one holds none.
pub proof fn lemma_free_entry(s: Seq<Option<usize>>) -> (j: int)
    requires
        matched(s) < s.len(),
    ensures
        0 <= j < s.len(),
        s[j] is None,
    decreases s.len(),
{
    if s.last() is None {
        s.len() - 1
    } else {
        lemma_free_entry(s.drop_last())
    }
}

/// Where no entry holds an index, none counts.
pub proof fn lemma_matched_none(s: Seq<Option<usize>>)
    requires
        forall|j: int| 0 <= j < s.len() ==> (#[trigger] s[j]) is None,
    ensures
        matched(s) == 0,
    decreases s.len(),
{
    if s.len() > 0 {
        lemma_matched_none(s.drop_last());
    }
}

/// Before any row is assigned the state is well formed.
pub proof fn lemma_initial(m: Matrix)
    requires
        m.wf(),
    ensures
        state_wf(m, initial(m), 0),
{
    lemma_matched_none(initial(m).row4col);
}

/// The walk back from the free column: `t` is the state so far, `base` the
/// state it began with, `j` the column that the next step gives to the row
/// before it on the path. No row holds `j` at this point.
pub open spec fn walking(
    m: Matrix,
    base: State,
    t: State,
    k: nat,
    q: Search,
    stamp: Seq<int>,
    j: int,
    fuel: nat,
) -> bool {
    &&& m.wf()
    &&& k < m.nr
    &&& shaped(m, t)
    &&& shaped(m, base)
    &&& q.path.len() == m.nc
    &&& q.sc.len() == m.nc
    &&& stamp.len() == m.nc
    &&& t.u == base.u
    &&& t.v == base.v
    &&& forall|i: int| 0 <= i < m.nr ==> -limit() <= #[trigger] t.u[i] <= 3 * limit()
    &&& forall|i: int| k < i < m.nr ==> #[trigger] t.u[i] == 0
    &&& forall|c: int| 0 <= c < m.nc ==> -4 * limit() <= #[trigger] t.v[c] <= 0
    &&& forall|i: int, c: int| 0 <= i <= k && 0 <= c < m.nc ==> #[trigger] t.reduced(m, i, c) >= 0
    // the edges of the tree are tight, and walking back along them the stamps fall
    &&& forall|c: int|
        0 <= c < m.nc && #[trigger] q.sc[c] ==> q.path[c] is Some && q.path[c].unwrap() <= k
            && t.reduced(m, q.path[c].unwrap() as int, c) == 0 && 1 <= stamp[c] && (q.path[c].unwrap()
            == k || {
            let b = base.col4row[q.path[c].unwrap() as int];
            b is Some && b.unwrap() < m.nc && q.sc[b.unwrap() as int] && stamp[b.unwrap() as int]
                < stamp[c]
        })
    &&& 0 <= j < m.nc
    &&& q.sc[j]
    &&& stamp[j] <= fuel
    &&& forall|i: int|
        0 <= i < m.nr ==> (#[trigger] t.col4row[i] matches Some(c) ==> c < m.nc && c != j
            && t.row4col[c as int] == Some(i as usize) && t.reduced(m, i, c as int) == 0)
    &&& forall|c: int|
        0 <= c < m.nc && c != j ==> (#[trigger] t.row4col[c] matches Some(i) ==> i < m.nr
            && t.col4row[i as int] == Some(c as usize))
    &&& forall|i: int| 0 <= i < m.nr ==> (#[trigger] t.col4row[i] is Some <==> i < k)
    &&& matched(t.row4col) == if t.row4col[j] is None {
        k
    } else {
        k + 1
    }
    &&& forall|c: int| 0 <= c < m.nc && c != j && #[trigger] t.row4col[c] is None ==> t.v[c] == 0
    // a row that has changed its column had one whose stamp is no less than that of `j`
    &&& forall|i: int|
        0 <= i < m.nr && #[trigger] t.col4row[i] != base.col4row[i] ==> base.col4row[i] is Some
            && base.col4row[i].unwrap() < m.nc && q.sc[base.col4row[i].unwrap() as int]
            && stamp[base.col4row[i].unwrap() as int] >= stamp[j]
}

/// With the tree arrived at `sink`, the new potentials are feasible for one
/// more row and tight along the tree, and the walk back can begin.
pub proof fn lemma_update_duals(m: Matrix, s: State, k: nat, q: Search, sink: int, stamp: Seq<int>)
    requires
        found(m, s, k, q, sink, stamp),
    ensures
        walking(
            m,
            update_duals(s, q, k as int),
            update_duals(s, q, k as int),
            k,
            q,
            stamp,
            sink,
            m.nc,
        ),
        -limit() <= q.min_val <= limit(),
{
    let root = k as int;
    let t = update_duals(s, q, root);
    let d = q.min_val;
    // the free column bounds the distance and the old potentials of the rows
    assert(q.spc[sink].unwrap() <= dist(s, q, root, root) + s.reduced(m, root, sink));
    assert(s.v[sink] == 0);
    assert(s.u[root] == 0);
    assert(-limit() <= m.at(root, sink) <= limit());
    assert(d <= limit());
    assert forall|i: int| 0 <= i < k implies #[trigger] s.u[i] <= limit() by {
        assert(s.reduced(m, i, sink) >= 0);
        assert(-limit() <= m.at(i, sink) <= limit());
    }
    assert forall|i: int| 0 <= i < m.nr && i != root && #[trigger] q.sr[i] implies -limit()
        <= dist(s, q, root, i) <= d && i < k by {
        let c = s.col4row[i].unwrap() as int;
        assert(q.sc[c]);
        assert(q.spc[c] is Some);
    }
    assert forall|c: int| 0 <= c < m.nc && q.sc[c] implies -limit() <= (#[trigger] q.spc[c]).unwrap()
        <= d && (c != sink ==> s.v[c] >= -2 * limit()) by {
        if c != sink {
            let i = s.row4col[c].unwrap() as int;
            assert(s.col4row[i] == Some(c as usize));
            assert(s.reduced(m, i, s.col4row[i].unwrap() as int) == 0);
            assert(-limit() <= m.at(i, c) <= limit());
            assert(s.u[i] <= limit());
        }
    }
    assert forall|i: int| 0 <= i < m.nr implies -limit() <= #[trigger] t.u[i] <= 3 * limit() by {
        if i != root && q.sr[i] {
            assert(-limit() <= dist(s, q, root, i) <= d);
        }
    }
    assert forall|i: int| k < i < m.nr implies #[trigger] t.u[i] == 0 by {
        if q.sr[i] {
            assert(s.col4row[i] is Some);
        }
    }
    assert forall|c: int| 0 <= c < m.nc implies -4 * limit() <= #[trigger] t.v[c] <= 0 by {
        if q.sc[c] {
            assert(-limit() <= q.spc[c].unwrap() <= d);
        }
    }
    assert forall|i: int, c: int| 0 <= i <= k && 0 <= c < m.nc implies #[trigger] t.reduced(
        m,
        i,
        c,
    ) >= 0 by {
        assert(q.spc[c] is Some);
        if i == root || q.sr[i] {
            assert(q.sr[i]);
            assert(q.spc[c].unwrap() <= dist(s, q, root, i) + s.reduced(m, i, c));
            if !q.sc[c] {
                assert(q.spc[c].unwrap() >= d);
            }
        } else {
            assert(s.reduced(m, i, c) >= 0);
            if q.sc[c] {
                assert(q.spc[c].unwrap() <= d);
            }
        }
    }
    assert forall|c: int| 0 <= c < m.nc && #[trigger] q.sc[c] implies q.path[c] is Some
        && q.path[c].unwrap() <= k && t.reduced(m, q.path[c].unwrap() as int, c) == 0 && 1
        <= stamp[c] && (q.path[c].unwrap() == k || {
        let b = t.col4row[q.path[c].unwrap() as int];
        b is Some && b.unwrap() < m.nc && q.sc[b.unwrap() as int] && stamp[b.unwrap() as int]
            < stamp[c]
    }) by {
        assert(q.spc[c] is Some);
        let p = q.path[c].unwrap() as int;
        assert(q.sr[p]);
        assert(q.spc[c].unwrap() == dist(s, q, root, p) + s.reduced(m, p, c));
    }
    assert forall|i: int| 0 <= i < m.nr implies (#[trigger] t.col4row[i] matches Some(c) ==> c
        < m.nc && c != sink && t.row4col[c as int] == Some(i as usize) && t.reduced(m, i, c as int)
        == 0) by {
        if t.col4row[i] is Some {
            let c = t.col4row[i].unwrap() as int;
            assert(s.col4row[i] == Some(c as usize));
            assert(s.row4col[c] == Some(i as usize));
            assert(i < k);
            assert(s.reduced(m, i, s.col4row[i].unwrap() as int) == 0);
            if q.sr[i] {
                assert(q.sc[c]);
            } else {
                if q.sc[c] {
                    assert(q.sr[s.row4col[c].unwrap() as int]);
                }
            }
        }
    }
    assert forall|c: int| 0 <= c < m.nc && c != sink && #[trigger] t.row4col[c] is None implies t.v[c]
        == 0 by {
        assert(s.row4col[c] is None);
        if q.sc[c] {
            assert(s.row4col[c] is Some);
        }
    }
    assert(stamp[sink] <= m.nc);
}

/// One step of the walk that does not end it.
pub proof fn lemma_walk_step(
    m: Matrix,
    base: State,
    t: State,
    k: nat,
    q: Search,
    stamp: Seq<int>,
    j: int,
    fuel: nat,
)
    requires
        walking(m, base, t, k, q, stamp, j, fuel),
        q.path[j].unwrap() != k,
    ensures
        fuel > 1,
        t.col4row[q.path[j].unwrap() as int] is Some,
        walking(
            m,
            base,
            flip(q.path, t, j as usize),
            k,
            q,
            stamp,
            t.col4row[q.path[j].unwrap() as int].unwrap() as int,
            (fuel - 1) as nat,
        ),
{
    let i = q.path[j].unwrap() as int;
    let t2 = flip(q.path, t, j as usize);
    assert(q.sc[j]);
    assert(i < k);
    let b = base.col4row[i];
    assert(b is Some && q.sc[b.unwrap() as int] && stamp[b.unwrap() as int] < stamp[j]);
    assert(t.col4row[i] == base.col4row[i]);
    let j2 = t.col4row[i].unwrap() as int;
    assert(1 <= stamp[j2]);
    assert(j2 != j);
    assert(t.row4col[j2] == Some(i as usize));
    lemma_matched_update(t.row4col, j, Some(i as usize));
    assert(t2.row4col[j2] is Some);
    assert forall|i2: int| 0 <= i2 < m.nr implies (#[trigger] t2.col4row[i2] matches Some(c) ==> c
        < m.nc && c != j2 && t2.row4col[c as int] == Some(i2 as usize) && t2.reduced(
        m,
        i2,
        c as int,
    ) == 0) by {
        if i2 == i {
            assert(t2.reduced(m, i, j) == t.reduced(m, i, j));
        } else if t2.col4row[i2] is Some {
            let c = t.col4row[i2].unwrap() as int;
            assert(t.row4col[c] == Some(i2 as usize));
            assert(t2.reduced(m, i2, c) == t.reduced(m, i2, c));
        }
    }
    assert forall|c: int| 0 <= c < m.nc && c != j2 implies (#[trigger] t2.row4col[c] matches Some(
        i2,
    ) ==> i2 < m.nr && t2.col4row[i2 as int] == Some(c as usize)) by {
        if c != j && t2.row4col[c] is Some {
            let i2 = t.row4col[c].unwrap() as int;
            assert(t.col4row[i2] == Some(c as usize));
        }
    }
    assert forall|i2: int, c: int| 0 <= i2 <= k && 0 <= c < m.nc implies #[trigger] t2.reduced(
        m,
        i2,
        c,
    ) >= 0 by {
        assert(t2.reduced(m, i2, c) == t.reduced(m, i2, c));
    }
    assert forall|c: int| 0 <= c < m.nc && #[trigger] q.sc[c] implies t2.reduced(
        m,
        q.path[c].unwrap() as int,
        c,
    ) == 0 by {
        assert(t2.reduced(m, q.path[c].unwrap() as int, c) == t.reduced(
            m,
            q.path[c].unwrap() as int,
            c,
        ));
    }
    assert forall|i2: int| 0 <= i2 < m.nr && #[trigger] t2.col4row[i2] != base.col4row[i2] implies base.col4row[i2] is Some
        && base.col4row[i2].unwrap() < m.nc && q.sc[base.col4row[i2].unwrap() as int]
        && stamp[base.col4row[i2].unwrap() as int] >= stamp[j2] by {
        if i2 != i {
            assert(t.col4row[i2] != base.col4row[i2]);
        }
    }
}

/// The step of the walk that reaches the root: row `k` is assigned.
pub proof fn lemma_walk_done(
    m: Matrix,
    base: State,
    t: State,
    k: nat,
    q: Search,
    stamp: Seq<int>,
    j: int,
    fuel: nat,
)
    requires
        walking(m, base, t, k, q, stamp, j, fuel),
        q.path[j].unwrap() == k,
    ensures
        fuel > 0,
        state_wf(m, flip(q.path, t, j as usize), k + 1),
{
    let i = k as int;
    let t2 = flip(q.path, t, j as usize);
    assert(q.sc[j]);
    assert(t.col4row[i] is None);
    lemma_matched_update(t.row4col, j, Some(i as usize));
    assert forall|i2: int, c: int| 0 <= i2 < k + 1 && 0 <= c < m.nc implies #[trigger] t2.reduced(
        m,
        i2,
        c,
    ) >= 0 by {
        assert(t2.reduced(m, i2, c) == t.reduced(m, i2, c));
    }
    assert forall|i2: int| 0 <= i2 < k + 1 implies t2.reduced(
        m,
        i2,
        (#[trigger] t2.col4row[i2]).unwrap() as int,
    ) == 0 by {
        let c = t2.col4row[i2].unwrap() as int;
        assert(t2.reduced(m, i2, c) == t.reduced(m, i2, c));
        if i2 != i {
            assert(t.col4row[i2] is Some);
        }
    }
    assert forall|i2: int| 0 <= i2 < m.nr implies (#[trigger] t2.col4row[i2] matches Some(c) ==> c
        < m.nc && t2.row4col[c as int] == Some(i2 as usize)) by {
        if i2 != i && t2.col4row[i2] is Some {
            let c = t.col4row[i2].unwrap() as int;
            assert(t.row4col[c] == Some(i2 as usize));
        }
    }
    assert forall|c: int| 0 <= c < m.nc implies (#[trigger] t2.row4col[c] matches Some(i2) ==> i2
        < m.nr && t2.col4row[i2 as int] == Some(c as usize)) by {
        if c != j && t2.row4col[c] is Some {
            let i2 = t.row4col[c].unwrap() as int;
            assert(t.col4row[i2] == Some(c as usize));
        }
    }
    assert(paired(m, t2));
    assert forall|c: int| 0 <= c < m.nc && #[trigger] t2.row4col[c] is None implies t2.v[c] == 0 by {
        assert(c != j);
        assert(t.row4col[c] is None);
    }
    assert(potentials_ok(m, t2, k + 1));
}

} // verus!
