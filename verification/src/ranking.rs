//! Ordering indices by a key, ties in index order.
//!
//! Both the radial heuristic and the branch-and-bound search put a set of
//! indices in the order of a key that each index has. Equal keys are told
//! apart by the index itself, so the order is total and the result is the same
//! on every run.

use vstd::prelude::*;

verus! {

/// Index `a` comes before index `b`: its key is smaller, or the keys are equal
/// and `a` is the smaller index.
pub open spec fn ranks_before(keys: Seq<u64>, a: usize, b: usize) -> bool {
    keys[a as int] < keys[b as int] || (keys[a as int] == keys[b as int] && a < b)
}

/// `out` lists exactly the indices that `skip` does not mark, each before all
/// those that it ranks before.
pub open spec fn is_ranking(keys: Seq<u64>, skip: Seq<bool>, out: Seq<usize>) -> bool {
    &&& forall|i: int| 0 <= i < out.len() ==> (#[trigger] out[i]) < keys.len() && !skip[out[i] as int]
    &&& forall|v: usize| v < keys.len() && !skip[v as int] ==> #[trigger] out.contains(v)
    &&& forall|i: int, j: int| 0 <= i < j < out.len() ==> ranks_before(keys, out[i], out[j])
}

/// Lists the indices of `keys` that `skip` does not mark, by ascending key;
/// indices with equal keys stay in index order.
pub fn rank_by_key(keys: &Vec<u64>, skip: &Vec<bool>) -> (out: Vec<usize>)
    requires
        skip.len() == keys.len(),
    ensures
        is_ranking(keys@, skip@, out@),
{
    let n = keys.len();
    let mut out: Vec<usize> = Vec::new();
    let mut i: usize = 0;
    while i < n
        invariant
            n == keys.len(),
            skip.len() == n,
            0 <= i <= n,
            forall|a: int| 0 <= a < out.len() ==> (#[trigger] out[a]) < i && !skip[out[a] as int],
            forall|v: usize| v < i && !skip[v as int] ==> #[trigger] out@.contains(v),
            forall|a: int, b: int| 0 <= a < b < out.len() ==> ranks_before(keys@, out[a], out[b]),
        decreases n - i,
    {
        if !skip[i] {
            let mut p: usize = out.len();
            while p > 0 && keys[out[p - 1]] > keys[i]
                invariant
                    n == keys.len(),
                    i < n,
                    0 <= p <= out.len(),
                    forall|a: int| 0 <= a < out.len() ==> (#[trigger] out[a]) < i,
                    forall|a: int| p <= a < out.len() ==> keys[i as int] < keys[(#[trigger] out[a]) as int],
                decreases p,
            {
                p = p - 1;
            }
            let ghost before = out@;
            out.insert(p, i);
            proof {
                assert forall|a: int, b: int| 0 <= a < b < out.len() implies ranks_before(
                    keys@,
                    out[a],
                    out[b],
                ) by {
                    if b < p {
                        assert(out[a] == before[a] && out[b] == before[b]);
                    } else if b == p {
                        assert(out[a] == before[a]);
                        if a < p - 1 {
                            assert(ranks_before(keys@, before[a], before[p - 1]));
                        }
                    } else if a < p {
                        assert(out[a] == before[a] && out[b] == before[b - 1]);
                    } else if a == p {
                        assert(out[b] == before[b - 1]);
                    } else {
                        assert(out[a] == before[a - 1] && out[b] == before[b - 1]);
                    }
                }
                assert forall|v: usize| v < i + 1 && !skip[v as int] implies #[trigger] out@.contains(
                    v,
                ) by {
                    if v == i {
                        assert(out[p as int] == v);
                    } else {
                        assert(before.contains(v));
                        let a = choose|a: int| 0 <= a < before.len() && before[a] == v;
                        if a < p {
                            assert(out[a] == v);
                        } else {
                            assert(out[a + 1] == v);
                        }
                    }
                }
                assert forall|a: int| 0 <= a < out.len() implies (#[trigger] out[a]) < i + 1
                    && !skip[out[a] as int] by {
                    if a < p {
                        assert(out[a] == before[a]);
                    } else if a > p {
                        assert(out[a] == before[a - 1]);
                    }
                }
            }
        }
        i = i + 1;
    }
    out
}

proof fn lemma_rankings_agree_upto(
    keys: Seq<u64>,
    skip: Seq<bool>,
    a: Seq<usize>,
    b: Seq<usize>,
    k: nat,
)
    requires
        is_ranking(keys, skip, a),
        is_ranking(keys, skip, b),
        k <= a.len(),
    ensures
        k <= b.len(),
        forall|i: int| 0 <= i < k ==> a[i] == b[i],
    decreases k,
{
    if k > 0 {
        let i = (k - 1) as int;
        lemma_rankings_agree_upto(keys, skip, a, b, (k - 1) as nat);
        assert(a[i] < keys.len() && !skip[a[i] as int]);
        assert(b.contains(a[i]));
        let j = choose|j: int| 0 <= j < b.len() && b[j] == a[i];
        if j < i {
            assert(ranks_before(keys, a[j], a[i]));
        }
        assert(i < b.len());
        assert(b[i] < keys.len() && !skip[b[i] as int]);
        assert(a.contains(b[i]));
        let m = choose|m: int| 0 <= m < a.len() && a[m] == b[i];
        if m < i {
            assert(ranks_before(keys, b[m], b[i]));
        }
        if j > i && m > i {
            assert(ranks_before(keys, b[i], b[j]));
            assert(ranks_before(keys, a[i], a[m]));
        }
    }
}

/// Keys and marks admit one ranking only.
pub proof fn lemma_ranking_unique(keys: Seq<u64>, skip: Seq<bool>, a: Seq<usize>, b: Seq<usize>)
    requires
        is_ranking(keys, skip, a),
        is_ranking(keys, skip, b),
    ensures
        a == b,
{
    lemma_rankings_agree_upto(keys, skip, a, b, a.len());
    lemma_rankings_agree_upto(keys, skip, b, a, b.len());
    assert(a =~= b);
}

} // verus!
