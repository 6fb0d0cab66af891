//! Finite sums over sequences of integers, and sums taken along a selection
//! of distinct places.

use vstd::prelude::*;

verus! {

/// The sum of all entries of `f`.
pub open spec fn sum(f: Seq<int>) -> int
    decreases f.len(),
{
    if f.len() == 0 {
        0
    } else {
        sum(f.drop_last()) + f.last()
    }
}

/// The entries of `f` at the places `idx`, in the order of `idx`.
pub open spec fn gather(f: Seq<int>, idx: Seq<int>) -> Seq<int> {
    Seq::new(idx.len(), |t: int| f[idx[t]])
}

/// `f` with the places named in `idx` set to zero.
pub open spec fn rest(f: Seq<int>, idx: Seq<int>) -> Seq<int> {
    Seq::new(f.len(), |j: int| if idx.contains(j) { 0 } else { f[j] })
}

/// Every entry of `idx` lies in `0..n` and no value occurs twice.
pub open spec fn distinct_within(idx: Seq<int>, n: int) -> bool {
    &&& forall|t: int| 0 <= t < idx.len() ==> 0 <= #[trigger] idx[t] < n
    &&& forall|s: int, t: int| 0 <= s < t < idx.len() ==> idx[s] != idx[t]
}

/// Index sequences as they come out of the solver, read as integers.
pub open spec fn as_ints(s: Seq<usize>) -> Seq<int> {
    Seq::new(s.len(), |t: int| s[t] as int)
}

/// Writing one entry changes the sum by the difference.
pub proof fn lemma_sum_update(f: Seq<int>, k: int, y: int)
    requires
        0 <= k < f.len(),
    ensures
        sum(f.update(k, y)) == sum(f) - f[k] + y,
    decreases f.len(),
{
    let g = f.update(k, y);
    if k == f.len() - 1 {
        assert(g.drop_last() =~= f.drop_last());
    } else {
        lemma_sum_update(f.drop_last(), k, y);
        assert(g.drop_last() =~= f.drop_last().update(k, y));
    }
}

/// Entry by entry no greater, the sum is no greater.
pub proof fn lemma_sum_le(a: Seq<int>, b: Seq<int>)
    requires
        a.len() == b.len(),
        forall|i: int| 0 <= i < a.len() ==> a[i] <= b[i],
    ensures
        sum(a) <= sum(b),
    decreases a.len(),
{
    if a.len() > 0 {
        lemma_sum_le(a.drop_last(), b.drop_last());
    }
}

/// Equal entries add up to their number times their value.
pub proof fn lemma_sum_constant(f: Seq<int>, c: int)
    requires
        forall|i: int| 0 <= i < f.len() ==> f[i] == c,
    ensures
        sum(f) == c * f.len(),
    decreases f.len(),
{
    if f.len() > 0 {
        lemma_sum_constant(f.drop_last(), c);
        assert(c * (f.len() - 1) + c == c * f.len()) by (nonlinear_arith);
    } else {
        assert(c * 0 == 0);
    }
}

/// The sum of entrywise sums is the sum of the sums.
pub proof fn lemma_sum_add(a: Seq<int>, b: Seq<int>, c: Seq<int>)
    requires
        a.len() == b.len(),
        a.len() == c.len(),
        forall|i: int| 0 <= i < a.len() ==> c[i] == a[i] + b[i],
    ensures
        sum(c) == sum(a) + sum(b),
    decreases a.len(),
{
    if a.len() > 0 {
        lemma_sum_add(a.drop_last(), b.drop_last(), c.drop_last());
    }
}

/// Negating every entry negates the sum.
pub proof fn lemma_sum_negate(a: Seq<int>, b: Seq<int>)
    requires
        a.len() == b.len(),
        forall|i: int| 0 <= i < a.len() ==> b[i] == -a[i],
    ensures
        sum(b) == -sum(a),
    decreases a.len(),
{
    if a.len() > 0 {
        lemma_sum_negate(a.drop_last(), b.drop_last());
    }
}

/// A sum of entries none of which is negative is at least each entry.
pub proof fn lemma_sum_bounds_entry(f: Seq<int>, k: int)
    requires
        0 <= k < f.len(),
        forall|i: int| 0 <= i < f.len() ==> f[i] >= 0,
    ensures
        sum(f) >= f[k],
        sum(f) >= 0,
    decreases f.len(),
{
    if f.len() == 1 {
        assert(sum(f.drop_last()) == 0);
    } else if k == f.len() - 1 {
        lemma_sum_bounds_entry(f.drop_last(), 0);
    } else {
        lemma_sum_bounds_entry(f.drop_last(), k);
    }
}

/// The whole sum is the sum along the selected places plus the sum of what
/// the selection leaves out.
pub proof fn lemma_sum_split(f: Seq<int>, idx: Seq<int>)
    requires
        distinct_within(idx, f.len() as int),
    ensures
        sum(f) == sum(gather(f, idx)) + sum(rest(f, idx)),
    decreases idx.len(),
{
    if idx.len() == 0 {
        assert(rest(f, idx) =~= f);
        assert(gather(f, idx) =~= Seq::<int>::empty());
    } else {
        let head = idx.drop_last();
        let x = idx.last();
        lemma_sum_split(f, head);
        assert(gather(f, idx).drop_last() =~= gather(f, head));
        assert(gather(f, idx).last() == f[x]);
        assert(!head.contains(x)) by {
            if head.contains(x) {
                let t = choose|t: int| 0 <= t < head.len() && head[t] == x;
                assert(idx[t] == idx[idx.len() - 1]);
            }
        }
        assert forall|j: int| idx.contains(j) == (head.contains(j) || j == x) by {
            if idx.contains(j) {
                let t = choose|t: int| 0 <= t < idx.len() && idx[t] == j;
                if t < head.len() {
                    assert(head[t] == j);
                }
            }
            if head.contains(j) {
                let t = choose|t: int| 0 <= t < head.len() && head[t] == j;
                assert(idx[t] == j);
            }
            if j == x {
                assert(idx[idx.len() - 1] == j);
            }
        }
        assert(rest(f, idx) =~= rest(f, head).update(x, 0));
        lemma_sum_update(rest(f, head), x, 0);
    }
}

/// A selection of as many distinct places as `f` has entries names each place.
pub proof fn lemma_selection_covers(n: nat, idx: Seq<int>, j: int)
    requires
        distinct_within(idx, n as int),
        idx.len() == n,
        0 <= j < n,
    ensures
        idx.contains(j),
{
    let ones = Seq::new(n, |k: int| 1int);
    lemma_sum_split(ones, idx);
    lemma_sum_constant(ones, 1);
    lemma_sum_constant(gather(ones, idx), 1);
    if !idx.contains(j) {
        lemma_sum_bounds_entry(rest(ones, idx), j);
    }
}

/// Along a selection that names every place exactly once the sum is the whole sum.
pub proof fn lemma_sum_permuted(f: Seq<int>, idx: Seq<int>)
    requires
        distinct_within(idx, f.len() as int),
        idx.len() == f.len(),
    ensures
        sum(gather(f, idx)) == sum(f),
{
    lemma_sum_split(f, idx);
    assert forall|j: int| 0 <= j < f.len() implies rest(f, idx)[j] == 0 by {
        lemma_selection_covers(f.len(), idx, j);
    }
    lemma_sum_constant(rest(f, idx), 0);
}

/// Where no entry is positive, a selection of distinct places sums to at least the whole.
pub proof fn lemma_sum_selection_nonpositive(f: Seq<int>, idx: Seq<int>)
    requires
        distinct_within(idx, f.len() as int),
        forall|j: int| 0 <= j < f.len() ==> f[j] <= 0,
    ensures
        sum(gather(f, idx)) >= sum(f),
{
    lemma_sum_split(f, idx);
    let zeros = Seq::new(f.len(), |j: int| 0int);
    lemma_sum_le(rest(f, idx), zeros);
    lemma_sum_constant(zeros, 0);
}

/// Where every entry outside the selection is zero, the selection sums to the whole.
pub proof fn lemma_sum_selection_exact(f: Seq<int>, idx: Seq<int>)
    requires
        distinct_within(idx, f.len() as int),
        forall|j: int| 0 <= j < f.len() && !idx.contains(j) ==> f[j] == 0,
    ensures
        sum(gather(f, idx)) == sum(f),
{
    lemma_sum_split(f, idx);
    lemma_sum_constant(rest(f, idx), 0);
}

} // verus!
