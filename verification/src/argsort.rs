//! The stable order of the places of a vector by the keys that stand there.

use vstd::prelude::*;

verus! {

/// Place `x` comes before place `y`: its key is smaller, or equal with `x < y`.
pub open spec fn before(keys: Seq<usize>, x: usize, y: usize) -> bool {
    keys[x as int] < keys[y as int] || (keys[x as int] == keys[y as int] && x < y)
}

/// Where place `i` goes in the order `s`: behind every place whose key is
/// no greater than its own.
pub open spec fn insert_at(keys: Seq<usize>, s: Seq<usize>, i: int) -> int
    decreases s.len(),
{
    if s.len() == 0 || keys[s.last() as int] <= keys[i] {
        s.len() as int
    } else {
        insert_at(keys, s.drop_last(), i)
    }
}

/// The first `n` places of `keys` in ascending order of their keys, places
/// with equal keys in ascending order.
pub open spec fn argsort(keys: Seq<usize>, n: nat) -> Seq<usize>
    decreases n,
{
    if n == 0 {
        Seq::empty()
    } else {
        let s = argsort(keys, (n - 1) as nat);
        s.insert(insert_at(keys, s, n - 1), (n - 1) as usize)
    }
}

/// `s` names each of the first `n` places at most once, in the order that `before` gives.
pub open spec fn ordered(keys: Seq<usize>, s: Seq<usize>, n: nat) -> bool {
    &&& forall|t: int| 0 <= t < s.len() ==> (#[trigger] s[t]) < n
    &&& forall|a: int, b: int| 0 <= a < b < s.len() ==> before(keys, #[trigger] s[a], #[trigger] s[b])
}

/// Every place behind `insert_at` has a greater key, and the one just before it has none.
pub proof fn lemma_insert_at(keys: Seq<usize>, s: Seq<usize>, i: int)
    ensures
        0 <= insert_at(keys, s, i) <= s.len(),
        forall|t: int|
            insert_at(keys, s, i) <= t < s.len() ==> keys[(#[trigger] s[t]) as int] > keys[i],
        insert_at(keys, s, i) > 0 ==> keys[s[insert_at(keys, s, i) - 1] as int] <= keys[i],
    decreases s.len(),
{
    if s.len() == 0 || keys[s.last() as int] <= keys[i] {
    } else {
        let head = s.drop_last();
        lemma_insert_at(keys, head, i);
        let p = insert_at(keys, s, i);
        assert forall|t: int| p <= t < s.len() implies keys[(#[trigger] s[t]) as int] > keys[i] by {
            if t < head.len() {
                assert(head[t] == s[t]);
            }
        }
        if p > 0 {
            assert(head[p - 1] == s[p - 1]);
        }
    }
}

/// `argsort` has as many entries as places, and they stand in order.
pub proof fn lemma_argsort(keys: Seq<usize>, n: nat)
    requires
        n <= keys.len(),
        n <= usize::MAX,
    ensures
        argsort(keys, n).len() == n,
        ordered(keys, argsort(keys, n), n),
    decreases n,
{
    if n > 0 {
        let s = argsort(keys, (n - 1) as nat);
        let i = n - 1;
        let p = insert_at(keys, s, i);
        let r = argsort(keys, n);
        lemma_argsort(keys, (n - 1) as nat);
        lemma_insert_at(keys, s, i);
        s.insert_ensures(p, i as usize);
        assert forall|t: int| 0 <= t < r.len() implies (#[trigger] r[t]) < n by {
            if t < p {
                assert(r[t] == s[t]);
            } else if t > p {
                assert(r[(t - 1) + 1] == s[t - 1]);
            }
        }
        assert forall|a: int, b: int| 0 <= a < b < r.len() implies before(
            keys,
            #[trigger] r[a],
            #[trigger] r[b],
        ) by {
            if a < p {
                assert(r[a] == s[a]);
            } else if a > p {
                assert(r[(a - 1) + 1] == s[a - 1]);
            }
            if b < p {
                assert(r[b] == s[b]);
            } else if b > p {
                assert(r[(b - 1) + 1] == s[b - 1]);
            }
            if b < p {
                assert(before(keys, s[a], s[b]));
            } else if b == p {
                if a < p - 1 {
                    assert(before(keys, s[a], s[p - 1]));
                }
                assert(s[a] < i);
            } else if a == p {
                assert(keys[s[b - 1] as int] > keys[i]);
            } else if a < p {
                assert(before(keys, s[a], s[b - 1]));
            } else {
                assert(before(keys, s[a - 1], s[b - 1]));
            }
        }
    }
}

/// The places of `v` in ascending order of what stands there; places that
/// hold equal values keep their order.
pub fn argsort_iter(v: &Vec<usize>) -> (index: Vec<usize>)
    ensures
        index@ == argsort(v@, v@.len()),
        index@.len() == v@.len(),
        ordered(v@, index@, v@.len()),
{
    let n = v.len();
    let mut index: Vec<usize> = Vec::with_capacity(n);
    let mut i: usize = 0;
    while i < n
        invariant
            i <= n,
            n == v.len(),
            index@ == argsort(v@, i as nat),
        decreases n - i,
    {
        proof {
            lemma_argsort(v@, i as nat);
        }
        let ghost s = index@;
        let mut p: usize = index.len();
        assert(s.take(p as int) =~= s);
        while p > 0 && v[index[p - 1]] > v[i]
            invariant
                p <= index.len(),
                index@ == s,
                s.len() == i,
                i < n,
                n == v.len(),
                ordered(v@, s, i as nat),
                insert_at(v@, s.take(p as int), i as int) == insert_at(v@, s, i as int),
            decreases p,
        {
            proof {
                assert(s.take(p as int).last() == s[p - 1]);
                assert(s.take(p as int).drop_last() =~= s.take(p - 1));
            }
            p -= 1;
        }
        proof {
            if p > 0 {
                assert(s.take(p as int).last() == s[p - 1]);
            }
            assert(s.take(p as int).len() == p);
            assert(insert_at(v@, s, i as int) == p);
        }
        index.insert(p, i);
        i += 1;
    }
    proof {
        lemma_argsort(v@, n as nat);
    }
    index
}

} // verus!
