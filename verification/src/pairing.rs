//! Pairings of rows with columns and what they cost.

use vstd::prelude::*;
use crate::cost::Cost;
use crate::sums::{as_ints, distinct_within, sum};

verus! {

/// `rows` and `cols` pair as many rows with columns as the smaller side of an
/// `nr` by `nc` matrix has, no row and no column twice.
pub open spec fn is_pairing(nr: nat, nc: nat, rows: Seq<usize>, cols: Seq<usize>) -> bool {
    &&& rows.len() == cols.len()
    &&& rows.len() == if nr <= nc {
        nr
    } else {
        nc
    }
    &&& distinct_within(as_ints(rows), nr as int)
    &&& distinct_within(as_ints(cols), nc as int)
}

/// The cost of each pair, in the order of the pairing.
pub open spec fn pair_costs(nc: nat, cost: Seq<Cost>, rows: Seq<usize>, cols: Seq<usize>) -> Seq<int> {
    Seq::new(rows.len(), |t: int| cost[rows[t] * nc + cols[t]].value())
}

/// The sum of the costs of the pairs.
pub open spec fn total_cost(nc: nat, cost: Seq<Cost>, rows: Seq<usize>, cols: Seq<usize>) -> int {
    sum(pair_costs(nc, cost, rows, cols))
}

/// `rows` and `cols` are a pairing that no other pairing beats: none costs
/// less, or, when maximising, none costs more.
pub open spec fn optimal(
    nr: nat,
    nc: nat,
    cost: Seq<Cost>,
    maximize: bool,
    rows: Seq<usize>,
    cols: Seq<usize>,
) -> bool {
    &&& is_pairing(nr, nc, rows, cols)
    &&& forall|r2: Seq<usize>, c2: Seq<usize>| #[trigger]
        is_pairing(nr, nc, r2, c2) ==> if maximize {
            total_cost(nc, cost, r2, c2) <= total_cost(nc, cost, rows, cols)
        } else {
            total_cost(nc, cost, rows, cols) <= total_cost(nc, cost, r2, c2)
        }
}

/// Every entry is ascending: each is greater than the one before.
pub open spec fn ascending(s: Seq<usize>) -> bool {
    forall|a: int, b: int| 0 <= a < b < s.len() ==> s[a] < s[b]
}

} // verus!
