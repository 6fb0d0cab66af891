//! The table of short codes: which code goes to which character so that the
//! weights of the pairs chosen add up to the most.

use vstd::prelude::*;
use crate::cost::{Cost, LSAPError};
use crate::invariants::lemma_cell_index;
use crate::matching::filled;
use crate::pairing::{is_pairing, optimal};
use crate::solve::{solve, solve_model};
use crate::sums::as_ints;

verus! {

/// A code that a character could be given, and what giving it is worth.
/// `bianma` numbers the code and `zi` the character.
#[derive(Debug, Clone, Copy, PartialEq, Eq, Structural)]
pub struct Candidate {
    pub bianma: usize,
    pub zi: usize,
    pub weight: u64,
}

/// A weight as an entry of a cost matrix. One too large to be counted with
/// exactly stands as infinite.
pub open spec fn entry_of(weight: u64) -> Cost {
    if weight <= i64::MAX {
        Cost::Finite(weight as i64)
    } else {
        Cost::PosInfinity
    }
}

/// The matrix of codes by characters that holds the weight of each of the
/// first `n` candidates at its place and zero elsewhere. Of two candidates
/// for one place the later counts.
pub open spec fn dense(nr: nat, nc: nat, candidates: Seq<Candidate>, n: nat) -> Seq<Cost>
    decreases n,
{
    if n == 0 {
        Seq::new(nr * nc, |k: int| Cost::Finite(0))
    } else {
        let c = candidates[n - 1];
        dense(nr, nc, candidates, (n - 1) as nat).update(c.bianma * nc + c.zi, entry_of(c.weight))
    }
}

/// Those of the first `n` pairs of a pairing whose entry is positive, each
/// with its entry as weight, in the order of the pairing.
pub open spec fn chosen(
    nc: nat,
    cost: Seq<Cost>,
    rows: Seq<usize>,
    cols: Seq<usize>,
    n: nat,
) -> Seq<Candidate>
    decreases n,
{
    if n == 0 {
        Seq::empty()
    } else {
        let before = chosen(nc, cost, rows, cols, (n - 1) as nat);
        let x = cost[rows[n - 1] * nc + cols[n - 1]].value();
        if x > 0 {
            before.push(Candidate { bianma: rows[n - 1], zi: cols[n - 1], weight: x as u64 })
        } else {
            before
        }
    }
}

/// The weights of `s` added up.
pub open spec fn weight_sum(s: Seq<Candidate>) -> nat
    decreases s.len(),
{
    if s.len() == 0 {
        0
    } else {
        weight_sum(s.drop_last()) + s.last().weight as nat
    }
}

/// Chooses among the candidates so that no code and no character is taken
/// twice and the weights chosen add up to the most. Returns that sum and the
/// candidates chosen, in ascending order of their codes where there are no
/// more codes than characters, else of their characters. A pair that no
/// candidate stands for is worth nothing and is never among them.
pub fn make_jianma_table_lsap(nr: usize, nc: usize, candidates: &Vec<Candidate>) -> (r: Result<
    (u128, Vec<Candidate>),
    LSAPError,
>)
    requires
        nr * nc <= usize::MAX,
        forall|k: int|
            0 <= k < candidates.len() ==> (#[trigger] candidates[k]).bianma < nr
                && candidates[k].zi < nc,
    ensures
        match solve_model(
            nr as nat,
            nc as nat,
            dense(nr as nat, nc as nat, candidates@, candidates@.len()),
            true,
        ) {
            Ok((rows, cols)) => {
                &&& r matches Ok((total, table))
                &&& table@ == chosen(
                    nc as nat,
                    dense(nr as nat, nc as nat, candidates@, candidates@.len()),
                    rows,
                    cols,
                    rows.len(),
                )
                &&& total == weight_sum(table@)
                &&& optimal(
                    nr as nat,
                    nc as nat,
                    dense(nr as nat, nc as nat, candidates@, candidates@.len()),
                    true,
                    rows,
                    cols,
                )
            },
            Err(e) => r == Err::<(u128, Vec<Candidate>), LSAPError>(e),
        },
{
    let zero = Cost::Finite(0);
    let mut cost: Vec<Cost> = filled(nr * nc, zero);
    let mut k: usize = 0;
    assert(cost@ =~= dense(nr as nat, nc as nat, candidates@, 0));
    while k < candidates.len()
        invariant
            k <= candidates.len(),
            cost.len() == nr * nc,
            cost@ == dense(nr as nat, nc as nat, candidates@, k as nat),
            forall|a: int|
                0 <= a < candidates.len() ==> (#[trigger] candidates[a]).bianma < nr
                    && candidates[a].zi < nc,
        decreases candidates.len() - k,
    {
        let c = candidates[k];
        proof {
            lemma_cell_index(nr as int, nc as int, c.bianma as int, c.zi as int);
        }
        let e = if c.weight <= i64::MAX as u64 {
            Cost::Finite(c.weight as i64)
        } else {
            Cost::PosInfinity
        };
        cost[c.bianma * nc + c.zi] = e;
        k += 1;
    }
    let (rows, cols) = match solve(nr, nc, &cost, true) {
        Ok(p) => p,
        Err(e) => {
            return Err(e);
        },
    };
    let mut table: Vec<Candidate> = Vec::new();
    let mut total: u128 = 0;
    let mut t: usize = 0;
    while t < rows.len()
        invariant
            t <= rows.len(),
            cost.len() == nr * nc,
            is_pairing(nr as nat, nc as nat, rows@, cols@),
            table@ == chosen(nc as nat, cost@, rows@, cols@, t as nat),
            total == weight_sum(table@),
            total <= t * 0x7fff_ffff_ffff_ffff,
        decreases rows.len() - t,
    {
        proof {
            assert(0 <= as_ints(rows@)[t as int] < nr);
            assert(0 <= as_ints(cols@)[t as int] < nc);
            lemma_cell_index(nr as int, nc as int, rows[t as int] as int, cols[t as int] as int);
        }
        match cost[rows[t] * nc + cols[t]] {
            Cost::Finite(x) => {
                if x > 0 {
                    let ghost before = table@;
                    table.push(Candidate { bianma: rows[t], zi: cols[t], weight: x as u64 });
                    total = total + x as u128;
                    assert(table@.drop_last() =~= before);
                }
            },
            _ => {},
        }
        t += 1;
    }
    Ok((total, table))
}

} // verus!
