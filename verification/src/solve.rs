//! The solver: from a cost matrix to a best pairing of its rows and columns.

use vstd::prelude::*;
use crate::argsort::{argsort, argsort_iter, lemma_argsort, ordered};
use crate::cost::{Cost, LSAPError};
use crate::invariants::lemma_cell_index;
use crate::matching::{ints, Matching};
use crate::model::{assign_rows, initial, limit};
use crate::optimal::{
    all_finite, keys_of, lemma_output_optimal, lemma_working, output, working, working_entry,
};
use crate::pairing::{ascending, is_pairing, optimal, pair_costs, total_cost};
use crate::state_proofs::lemma_free_entry;
use crate::sums::{as_ints, sum};

verus! {

/// What `solve` returns, as a function of what it is given.
pub open spec fn solve_model(nr: nat, nc: nat, cost: Seq<Cost>, maximize: bool) -> Result<
    (Seq<usize>, Seq<usize>),
    LSAPError,
> {
    if nr == 0 || nc == 0 {
        Ok((Seq::empty(), Seq::empty()))
    } else if !all_finite(cost) {
        Err(LSAPError::Invalid)
    } else {
        let m = working(nr, nc, cost, maximize);
        match assign_rows(m, initial(m), 0) {
            None => Err(LSAPError::Infeasible),
            Some(s) => Ok(output(nc < nr, s)),
        }
    }
}

/// A result of `solve` with its vectors read as sequences.
pub open spec fn solved(r: Result<(Vec<usize>, Vec<usize>), LSAPError>) -> Result<
    (Seq<usize>, Seq<usize>),
    LSAPError,
> {
    match r {
        Ok((rows, cols)) => Ok((rows@, cols@)),
        Err(e) => Err(e),
    }
}

/// Whether every entry is a finite number.
fn check_finite(cost: &Vec<Cost>) -> (r: bool)
    ensures
        r == all_finite(cost@),
{
    let mut k: usize = 0;
    while k < cost.len()
        invariant
            k <= cost.len(),
            forall|a: int| 0 <= a < k ==> (#[trigger] cost[a]) is Finite,
        decreases cost.len() - k,
    {
        if !cost[k].is_finite() {
            return false;
        }
        k += 1;
    }
    true
}

/// The working matrix of the `nr` by `nc` matrix `cost`: a copy with rows and
/// columns exchanged where there are more rows than columns, and negated when
/// maximising. Fails where an entry is not a finite number.
pub fn normalize(nr: usize, nc: usize, cost: &Vec<Cost>, maximize: bool) -> (r: Result<
    Vec<i128>,
    LSAPError,
>)
    requires
        cost.len() == nr * nc,
    ensures
        r is Ok <==> all_finite(cost@),
        r matches Err(e) ==> e == LSAPError::Invalid,
        r matches Ok(w) ==> {
            &&& ints(w@) == working(nr as nat, nc as nat, cost@, maximize).w
            &&& w.len() == nr * nc
            &&& forall|k: int| 0 <= k < w.len() ==> -limit() <= #[trigger] w[k] <= limit()
        },
{
    if !check_finite(cost) {
        return Err(LSAPError::Invalid);
    }
    let exchanged = nc < nr;
    let wr = if exchanged {
        nc
    } else {
        nr
    };
    let wc = if exchanged {
        nr
    } else {
        nc
    };
    let ghost m = working(nr as nat, nc as nat, cost@, maximize);
    let mut w: Vec<i128> = Vec::with_capacity(cost.len());
    proof {
        assert(wr * wc == nr * nc) by (nonlinear_arith)
            requires
                (wr == nr && wc == nc) || (wr == nc && wc == nr),
        ;
    }
    if nr == 0 || nc == 0 {
        proof {
            assert(nr * nc == 0) by (nonlinear_arith)
                requires
                    nr == 0 || nc == 0,
            ;
            assert(ints(w@) =~= m.w);
        }
        return Ok(w);
    }
    proof {
        lemma_working(nr as nat, nc as nat, cost@, maximize);
    }
    let mut i: usize = 0;
    while i < wr
        invariant
            i <= wr,
            wr > 0,
            wc > 0,
            exchanged == (nc < nr),
            wr == (if exchanged { nc } else { nr }),
            wc == (if exchanged { nr } else { nc }),
            cost.len() == nr * nc,
            all_finite(cost@),
            m == working(nr as nat, nc as nat, cost@, maximize),
            m.wf(),
            m.nr == wr,
            m.nc == wc,
            forall|a: int, b: int|
                0 <= a < wr && 0 <= b < wc ==> #[trigger] m.at(a, b) == working_entry(
                    nr as nat,
                    nc as nat,
                    cost@,
                    maximize,
                    a,
                    b,
                ),
            w.len() == i * wc,
            forall|k: int| 0 <= k < w.len() ==> (#[trigger] w[k]) as int == m.w[k],
            forall|k: int| 0 <= k < w.len() ==> -limit() <= #[trigger] w[k] <= limit(),
        decreases wr - i,
    {
        let mut j: usize = 0;
        while j < wc
            invariant
                i < wr,
                j <= wc,
                exchanged == (nc < nr),
                wr == (if exchanged { nc } else { nr }),
                wc == (if exchanged { nr } else { nc }),
                cost.len() == nr * nc,
                all_finite(cost@),
                m.wf(),
                m.nr == wr,
                m.nc == wc,
                forall|a: int, b: int|
                    0 <= a < wr && 0 <= b < wc ==> #[trigger] m.at(a, b) == working_entry(
                        nr as nat,
                        nc as nat,
                        cost@,
                        maximize,
                        a,
                        b,
                    ),
                w.len() == i * wc + j,
                forall|k: int| 0 <= k < w.len() ==> (#[trigger] w[k]) as int == m.w[k],
                forall|k: int| 0 <= k < w.len() ==> -limit() <= #[trigger] w[k] <= limit(),
            decreases wc - j,
        {
            proof {
                lemma_cell_index(wr as int, wc as int, i as int, j as int);
                if exchanged {
                    lemma_cell_index(nr as int, nc as int, j as int, i as int);
                } else {
                    lemma_cell_index(nr as int, nc as int, i as int, j as int);
                }
                assert(m.at(i as int, j as int) == m.w[i * wc + j]);
            }
            let e = if exchanged {
                cost[j * nc + i]
            } else {
                cost[i * nc + j]
            };
            assert(e is Finite);
            let x: i128 = match e {
                Cost::Finite(x) => x as i128,
                _ => 0,
            };
            assert(x == e.value());
            w.push(
                if maximize {
                    -x
                } else {
                    x
                },
            );
            j += 1;
        }
        proof {
            assert(i * wc + wc == (i + 1) * wc) by (nonlinear_arith);
        }
        i += 1;
    }
    proof {
        assert(ints(w@) =~= m.w);
    }
    Ok(w)
}

impl Matching {
    /// The column of each row, where every row is assigned.
    pub(crate) fn keys(&self) -> (keys: Vec<usize>)
        requires
            self.wf(),
            self.assigned == self.nr,
        ensures
            keys@ == keys_of(self.state()),
    {
        let mut keys: Vec<usize> = Vec::with_capacity(self.nr);
        let mut i: usize = 0;
        while i < self.nr
            invariant
                i <= self.nr,
                self.wf(),
                self.assigned == self.nr,
                keys@ == keys_of(self.state()).take(i as int),
            decreases self.nr - i,
        {
            assert(self.state().col4row[i as int] is Some);
            keys.push(self.col4row[i].unwrap());
            i += 1;
            assert(keys@ =~= keys_of(self.state()).take(i as int));
        }
        assert(keys@ =~= keys_of(self.state()));
        keys
    }
}

/// Solves the rectangular linear sum assignment problem for the `nr` by `nc`
/// matrix `cost`, given in row-major order. Returns the rows and the columns
/// of a pairing of least total cost, or of greatest where `maximize` is set,
/// the rows in ascending order.
pub fn solve(nr: usize, nc: usize, cost: &Vec<Cost>, maximize: bool) -> (r: Result<
    (Vec<usize>, Vec<usize>),
    LSAPError,
>)
    requires
        cost.len() == nr * nc,
    ensures
        solved(r) == solve_model(nr as nat, nc as nat, cost@, maximize),
        nr == 0 || nc == 0 ==> (r matches Ok(p) && p.0@.len() == 0 && p.1@.len() == 0),
        nr > 0 && nc > 0 ==> (r is Ok <==> all_finite(cost@)),
        r matches Err(e) ==> e == LSAPError::Invalid,
        r matches Ok(p) ==> (optimal(nr as nat, nc as nat, cost@, maximize, p.0@, p.1@)
            && ascending(p.0@)),
{
    if nr == 0 || nc == 0 {
        let rows: Vec<usize> = Vec::new();
        let cols: Vec<usize> = Vec::new();
        proof {
            assert(rows@ =~= Seq::<usize>::empty());
            assert(cols@ =~= Seq::<usize>::empty());
            assert forall|r2: Seq<usize>, c2: Seq<usize>| #[trigger]
                is_pairing(nr as nat, nc as nat, r2, c2) implies total_cost(
                nc as nat,
                cost@,
                r2,
                c2,
            ) == total_cost(nc as nat, cost@, rows@, cols@) by {
                assert(pair_costs(nc as nat, cost@, r2, c2) =~= pair_costs(
                    nc as nat,
                    cost@,
                    rows@,
                    cols@,
                ));
            }
        }
        return Ok((rows, cols));
    }
    let exchanged = nc < nr;
    let wr = if exchanged {
        nc
    } else {
        nr
    };
    let wc = if exchanged {
        nr
    } else {
        nc
    };
    let ghost m = working(nr as nat, nc as nat, cost@, maximize);
    let w = match normalize(nr, nc, cost, maximize) {
        Ok(w) => w,
        Err(e) => {
            return Err(e);
        },
    };
    proof {
        assert(wr * wc == nr * nc) by (nonlinear_arith)
            requires
                (wr == nr && wc == nc) || (wr == nc && wc == nr),
        ;
    }
    let mut matching = Matching::new(wr, wc, w);
    assert(matching.matrix() == m);
    while matching.assigned < wr
        invariant
            matching.wf(),
            matching.nr == wr,
            matching.nc == wc,
            matching.assigned <= wr,
            wr <= wc,
            matching.matrix() == m,
            assign_rows(m, matching.state(), matching.assigned as nat) == assign_rows(
                m,
                initial(m),
                0,
            ),
        decreases wr - matching.assigned,
    {
        proof {
            let j = lemma_free_entry(matching.row4col@);
            assert(matching.row4col[j] is None);
        }
        match matching.assign_next_row() {
            Ok(()) => {},
            Err(e) => {
                return Err(e);
            },
        }
    }
    let keys = matching.keys();
    let ghost s = matching.state();
    proof {
        lemma_output_optimal(nr as nat, nc as nat, cost@, maximize, s);
        assert(assign_rows(m, s, wr as nat) == Some(s));
        lemma_argsort(keys@, keys@.len());
    }
    let mut rows: Vec<usize> = Vec::with_capacity(wr);
    if exchanged {
        let order = argsort_iter(&keys);
        let mut t: usize = 0;
        while t < wr
            invariant
                t <= wr,
                wr == keys.len(),
                order@ == argsort(keys@, keys@.len()),
                order@.len() == wr,
                ordered(keys@, order@, wr as nat),
                rows@ == Seq::new(t as nat, |a: int| keys@[order@[a] as int]),
            decreases wr - t,
        {
            rows.push(keys[order[t]]);
            t += 1;
            assert(rows@ =~= Seq::new(t as nat, |a: int| keys@[order@[a] as int]));
        }
        Ok((rows, order))
    } else {
        let mut i: usize = 0;
        while i < wr
            invariant
                i <= wr,
                rows@ == Seq::new(i as nat, |a: int| a as usize),
            decreases wr - i,
        {
            rows.push(i);
            i += 1;
            assert(rows@ =~= Seq::new(i as nat, |a: int| a as usize));
        }
        Ok((rows, keys))
    }
}

/// The total cost of the pairing that `solve` returns.
pub fn get_assigned_cost(nr: usize, nc: usize, cost: &Vec<Cost>, maximize: bool) -> (r: Result<
    i128,
    LSAPError,
>)
    requires
        cost.len() == nr * nc,
    ensures
        match solve_model(nr as nat, nc as nat, cost@, maximize) {
            Ok((rows, cols)) => r == Ok::<i128, LSAPError>(
                total_cost(nc as nat, cost@, rows, cols) as i128,
            ) && i128::MIN <= total_cost(nc as nat, cost@, rows, cols) <= i128::MAX,
            Err(e) => r == Err::<i128, LSAPError>(e),
        },
{
    let (rows, cols) = match solve(nr, nc, cost, maximize) {
        Ok(p) => p,
        Err(e) => {
            return Err(e);
        },
    };
    let ghost p = pair_costs(nc as nat, cost@, rows@, cols@);
    let n = rows.len();
    let mut score: i128 = 0;
    let mut i: usize = 0;
    while i < n
        invariant
            i <= n,
            n == rows.len(),
            n == cols.len(),
            cost.len() == nr * nc,
            n > 0 ==> all_finite(cost@),
            is_pairing(nr as nat, nc as nat, rows@, cols@),
            p == pair_costs(nc as nat, cost@, rows@, cols@),
            score == sum(p.take(i as int)),
            -0x8000_0000_0000_0000 * i <= score <= 0x8000_0000_0000_0000 * i,
        decreases n - i,
    {
        proof {
            assert(0 <= as_ints(rows@)[i as int] < nr);
            assert(0 <= as_ints(cols@)[i as int] < nc);
            lemma_cell_index(nr as int, nc as int, rows[i as int] as int, cols[i as int] as int);
            assert(p.take(i + 1).drop_last() =~= p.take(i as int));
        }
        let x: i128 = match cost[rows[i] * nc + cols[i]] {
            Cost::Finite(x) => x as i128,
            _ => 0,
        };
        score = score + x;
        i += 1;
    }
    assert(p.take(n as int) =~= p);
    Ok(score)
}

} // verus!
