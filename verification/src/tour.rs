//! Tours and their cost.
//!
//! A tour of an instance of `n` points is a sequence of length `n` in which
//! every index below `n` occurs exactly once. Its cost is the sum of the
//! distances between consecutive indices, plus the closing edge from the last
//! index back to the first.

use vstd::prelude::*;
use vstd::set_lib::lemma_int_range;
use vstd::set_lib::lemma_len_subset;
use vstd::set_lib::set_int_range;
use crate::geometry::Point;
use crate::geometry::dist;
use crate::geometry::lemma_dist_bound;
use crate::geometry::lemma_dist_symmetric;
use crate::geometry::lemma_dist_triangle;
use crate::geometry::lemma_dist_zero_iff_equal;
use crate::geometry::max_dist;

verus! {

/// Every entry of `order` is an index below `n`.
pub open spec fn in_range(order: Seq<usize>, n: nat) -> bool {
    forall|i: int| 0 <= i < order.len() ==> #[trigger] order[i] < n
}

/// No index occurs twice in `order`.
pub open spec fn distinct(order: Seq<usize>) -> bool {
    forall|i: int, j: int| 0 <= i < j < order.len() ==> order[i] != order[j]
}

/// `order` is a tour of `n` points: a permutation of the indices below `n`.
pub open spec fn is_tour(order: Seq<usize>, n: nat) -> bool {
    &&& order.len() == n
    &&& in_range(order, n)
    &&& distinct(order)
}

/// The identity order `0, 1, .., n - 1`.
pub open spec fn identity_order(n: nat) -> Seq<usize> {
    Seq::new(n, |i: int| i as usize)
}

/// The length of the edge between the points with indices `a` and `b`.
pub open spec fn edge(points: Seq<Point>, a: usize, b: usize) -> nat {
    dist(points[a as int], points[b as int])
}

/// The length of the open path that visits `order` from its first index to
/// its last.
pub open spec fn path_cost(points: Seq<Point>, order: Seq<usize>) -> nat
    decreases order.len(),
{
    if order.len() <= 1 {
        0
    } else {
        path_cost(points, order.drop_last()) + edge(
            points,
            order[order.len() - 2],
            order.last(),
        )
    }
}

/// The cost of the closed tour `order`: its path, and the edge from the last
/// index back to the first. The empty order costs nothing.
pub open spec fn cycle_cost(points: Seq<Point>, order: Seq<usize>) -> nat {
    if order.len() == 0 {
        0
    } else {
        path_cost(points, order) + edge(points, order.last(), order[0])
    }
}

/// `order`, started `k` places later: the cycle is the same.
pub open spec fn rotate(order: Seq<usize>, k: int) -> Seq<usize> {
    order.skip(k) + order.take(k)
}

/// `tour` is a tour of the instance, and no tour of the instance costs less.
pub open spec fn is_optimal_tour(points: Seq<Point>, tour: Seq<usize>) -> bool {
    &&& is_tour(tour, points.len())
    &&& forall|other: Seq<usize>| #[trigger]
        is_tour(other, points.len()) ==> cycle_cost(points, tour) <= cycle_cost(points, other)
}

/// A path with one more stop costs one more edge.
pub proof fn lemma_path_cost_push(points: Seq<Point>, order: Seq<usize>, next: usize)
    requires
        order.len() > 0,
    ensures
        path_cost(points, order.push(next)) == path_cost(points, order) + edge(
            points,
            order.last(),
            next,
        ),
{
    assert(order.push(next).drop_last() =~= order);
}

/// The path over the first `k + 1` stops is the path over the first `k`,
/// and the edge to stop `k`.
pub proof fn lemma_path_cost_take(points: Seq<Point>, order: Seq<usize>, k: int)
    requires
        1 <= k < order.len(),
    ensures
        path_cost(points, order.take(k + 1)) == path_cost(points, order.take(k)) + edge(
            points,
            order[k - 1],
            order[k],
        ),
{
    assert(order.take(k + 1) =~= order.take(k).push(order[k]));
    lemma_path_cost_push(points, order.take(k), order[k]);
}

/// A path of `len` stops is at most `len - 1` longest edges long.
pub proof fn lemma_path_cost_bound(points: Seq<Point>, order: Seq<usize>)
    ensures
        path_cost(points, order) <= order.len() * max_dist(),
        order.len() > 0 ==> path_cost(points, order) + max_dist() <= order.len() * max_dist(),
    decreases order.len(),
{
    if order.len() > 1 {
        lemma_path_cost_bound(points, order.drop_last());
        lemma_dist_bound(points[order[order.len() - 2] as int], points[order.last() as int]);
    }
}

/// No tour costs more than its length times the longest edge.
pub proof fn lemma_cycle_cost_bound(points: Seq<Point>, order: Seq<usize>)
    ensures
        cycle_cost(points, order) <= order.len() * max_dist(),
{
    lemma_path_cost_bound(points, order);
    if order.len() > 0 {
        lemma_dist_bound(points[order.last() as int], points[order[0] as int]);
    }
}

/// The path over a prefix is no longer than the path over the whole.
pub proof fn lemma_path_cost_prefix(points: Seq<Point>, order: Seq<usize>, k: int)
    requires
        0 <= k <= order.len(),
    ensures
        path_cost(points, order.take(k)) <= path_cost(points, order),
    decreases order.len() - k,
{
    if k == order.len() {
        assert(order.take(k) =~= order);
    } else if k >= 1 {
        lemma_path_cost_take(points, order, k);
        lemma_path_cost_prefix(points, order, k + 1);
    }
}

/// The path over two orders joined is both paths and the edge between them.
pub proof fn lemma_path_cost_concat(points: Seq<Point>, a: Seq<usize>, b: Seq<usize>)
    requires
        a.len() > 0,
        b.len() > 0,
    ensures
        path_cost(points, a + b) == path_cost(points, a) + edge(points, a.last(), b[0])
            + path_cost(points, b),
    decreases b.len(),
{
    if b.len() == 1 {
        assert(a + b =~= a.push(b[0]));
        lemma_path_cost_push(points, a, b[0]);
    } else {
        let init = b.drop_last();
        assert(a + b =~= (a + init).push(b.last()));
        lemma_path_cost_push(points, a + init, b.last());
        lemma_path_cost_concat(points, a, init);
    }
}

/// The cost of a tour does not depend on where the cycle is started.
pub proof fn lemma_cycle_cost_rotate(points: Seq<Point>, order: Seq<usize>, k: int)
    requires
        0 <= k <= order.len(),
    ensures
        cycle_cost(points, rotate(order, k)) == cycle_cost(points, order),
{
    let a = order.take(k);
    let b = order.skip(k);
    if k == 0 || k == order.len() {
        assert(rotate(order, k) =~= order);
    } else {
        assert(order =~= a + b);
        lemma_path_cost_concat(points, a, b);
        lemma_path_cost_concat(points, b, a);
    }
}

/// A path costs the same walked backwards.
pub proof fn lemma_path_cost_reverse(points: Seq<Point>, order: Seq<usize>)
    ensures
        path_cost(points, order.reverse()) == path_cost(points, order),
    decreases order.len(),
{
    if order.len() > 1 {
        let init = order.drop_last();
        let last = order.last();
        assert(order.reverse() =~= seq![last] + init.reverse());
        lemma_path_cost_concat(points, seq![last], init.reverse());
        lemma_path_cost_reverse(points, init);
        lemma_dist_symmetric(points[last as int], points[init.last() as int]);
        assert(init.reverse()[0] == init.last());
        assert(path_cost(points, seq![last]) == 0);
    } else {
        assert(order.reverse() =~= order);
    }
}

/// The cost of a tour does not depend on the direction in which the cycle is
/// walked.
pub proof fn lemma_cycle_cost_reverse(points: Seq<Point>, order: Seq<usize>)
    ensures
        cycle_cost(points, order.reverse()) == cycle_cost(points, order),
{
    lemma_path_cost_reverse(points, order);
    if order.len() > 0 {
        lemma_dist_symmetric(points[order.last() as int], points[order[0] as int]);
        assert(order.reverse()[0] == order.last());
        assert(order.reverse().last() == order[0]);
    }
}

/// A tour started elsewhere is still a tour.
pub proof fn lemma_rotate_is_tour(order: Seq<usize>, n: nat, k: int)
    requires
        is_tour(order, n),
        0 <= k <= n,
    ensures
        is_tour(rotate(order, k), n),
        forall|i: int| 0 <= i < n - k ==> rotate(order, k)[i] == order[i + k],
        forall|i: int| n - k <= i < n ==> rotate(order, k)[i] == order[i - (n - k)],
{
    let r = rotate(order, k);
    assert forall|i: int| 0 <= i < r.len() implies #[trigger] r[i] < n by {
        if i < n - k {
            assert(r[i] == order[i + k]);
        } else {
            assert(r[i] == order[i - (n - k)]);
        }
    }
    assert forall|i: int, j: int| 0 <= i < j < r.len() implies r[i] != r[j] by {
        let oi = if i < n - k { i + k } else { i - (n - k) };
        let oj = if j < n - k { j + k } else { j - (n - k) };
        assert(r[i] == order[oi]);
        assert(r[j] == order[oj]);
        assert(oi != oj);
    }
}

/// A tour walked backwards is still a tour.
pub proof fn lemma_reverse_is_tour(order: Seq<usize>, n: nat)
    requires
        is_tour(order, n),
    ensures
        is_tour(order.reverse(), n),
{
    let r = order.reverse();
    assert forall|i: int| 0 <= i < r.len() implies #[trigger] r[i] < n by {
        assert(r[i] == order[n - 1 - i]);
    }
    assert forall|i: int, j: int| 0 <= i < j < r.len() implies r[i] != r[j] by {
        assert(r[i] == order[n - 1 - i]);
        assert(r[j] == order[n - 1 - j]);
    }
}

/// The identity order is a tour.
pub proof fn lemma_identity_is_tour(n: nat)
    requires
        n <= usize::MAX,
    ensures
        is_tour(identity_order(n), n),
{
}

/// A sequence of distinct indices below `n` has at most `n` entries, and if
/// it has `n`, every index below `n` occurs in it.
pub proof fn lemma_distinct_in_range(order: Seq<usize>, n: nat)
    requires
        in_range(order, n),
        distinct(order),
    ensures
        order.len() <= n,
        order.len() == n ==> forall|v: usize| v < n ==> order.contains(v),
{
    let ints = order.map_values(|v: usize| v as int);
    assert(ints.no_duplicates()) by {
        assert forall|i: int, j: int| 0 <= i < ints.len() && 0 <= j < ints.len() && i != j implies ints[i] != ints[j] by {
            if i < j {
                assert(order[i] != order[j]);
            } else {
                assert(order[j] != order[i]);
            }
        }
    }
    ints.unique_seq_to_set();
    let range = set_int_range(0, n as int);
    lemma_int_range(0, n as int);
    assert(ints.to_set().subset_of(range)) by {
        assert forall|v: int| ints.to_set().contains(v) implies range.contains(v) by {
            let i = choose|i: int| 0 <= i < ints.len() && ints[i] == v;
            assert(order[i] < n);
        }
    }
    lemma_len_subset(ints.to_set(), range);
    if order.len() == n {
        assert forall|v: usize| v < n implies order.contains(v) by {
            if !order.contains(v) {
                let smaller = range.remove(v as int);
                assert(ints.to_set().subset_of(smaller)) by {
                    assert forall|w: int| ints.to_set().contains(w) implies smaller.contains(w) by {
                        let i = choose|i: int| 0 <= i < ints.len() && ints[i] == w;
                        assert(order[i] < n);
                        assert(order[i] != v);
                    }
                }
                lemma_len_subset(ints.to_set(), smaller);
            }
        }
    }
}

/// A path is at least as long as the edge between its two ends.
pub proof fn lemma_path_cost_at_least_direct(points: Seq<Point>, order: Seq<usize>)
    requires
        order.len() > 0,
    ensures
        path_cost(points, order) >= edge(points, order[0], order.last()),
    decreases order.len(),
{
    if order.len() == 1 {
        lemma_dist_zero_iff_equal(points[order[0] as int], points[order[0] as int]);
    } else {
        let init = order.drop_last();
        lemma_path_cost_at_least_direct(points, init);
        lemma_dist_triangle(
            points[order[0] as int],
            points[init.last() as int],
            points[order.last() as int],
        );
    }
}

/// A tour that visits two points costs at least the way from one to the
/// other and back.
pub proof fn lemma_cycle_cost_at_least_round_trip(
    points: Seq<Point>,
    order: Seq<usize>,
    i: int,
    j: int,
)
    requires
        0 <= i < j < order.len(),
    ensures
        cycle_cost(points, order) >= 2 * edge(points, order[i], order[j]),
{
    let r = rotate(order, i);
    lemma_cycle_cost_rotate(points, order, i);
    let m = j - i;
    assert(r[0] == order[i]);
    assert(r[m] == order[j]);
    let out = r.take(m + 1);
    let back = r.skip(m);
    assert(r =~= r.take(m) + back);
    lemma_path_cost_concat(points, r.take(m), back);
    lemma_path_cost_take(points, r, m);
    assert(r.take(m).last() == r[m - 1]);
    assert(back[0] == r[m]);
    lemma_path_cost_at_least_direct(points, out);
    lemma_path_cost_at_least_direct(points, back);
    assert(out[0] == r[0] && out.last() == r[m]);
    assert(back.last() == r.last());
    lemma_dist_triangle(points[r[m] as int], points[r.last() as int], points[r[0] as int]);
    lemma_dist_symmetric(points[r[0] as int], points[r[m] as int]);
}

/// An order with fewer than `n` entries leaves some index below `n` out.
pub proof fn lemma_short_order_misses_index(order: Seq<usize>, n: nat) -> (missing: usize)
    requires
        order.len() < n <= usize::MAX,
    ensures
        missing < n,
        !order.contains(missing),
{
    if forall|v: usize| v < n ==> order.contains(v) {
        let ints = order.map_values(|v: usize| v as int);
        let range = set_int_range(0, n as int);
        lemma_int_range(0, n as int);
        assert(range.subset_of(ints.to_set())) by {
            assert forall|v: int| range.contains(v) implies ints.to_set().contains(v) by {
                assert(order.contains(v as usize));
                let i = choose|i: int| 0 <= i < order.len() && order[i] == v as usize;
                assert(ints[i] == v);
            }
        }
        ints.lemma_cardinality_of_set();
        lemma_len_subset(range, ints.to_set());
    }
    choose|v: usize| v < n && !order.contains(v)
}

/// Every tour has the same cost as a tour that starts at index 0: the same
/// cycle, started there.
pub proof fn lemma_tour_from_zero(points: Seq<Point>, order: Seq<usize>) -> (from_zero: Seq<usize>)
    requires
        points.len() > 0,
        is_tour(order, points.len()),
    ensures
        is_tour(from_zero, points.len()),
        from_zero[0] == 0,
        cycle_cost(points, from_zero) == cycle_cost(points, order),
        exists|k: int| 0 <= k < order.len() && from_zero == rotate(order, k),
{
    lemma_distinct_in_range(order, points.len());
    assert(order.contains(0usize));
    let k = choose|k: int| 0 <= k < order.len() && order[k] == 0usize;
    lemma_rotate_is_tour(order, points.len(), k);
    lemma_cycle_cost_rotate(points, order, k);
    rotate(order, k)
}

/// Computes the cost of the closed tour `order` over `points`.
///
/// The cost of a single index is the length of its loop, which is zero, and
/// the empty order costs nothing.
pub fn tour_cost(order: &Vec<usize>, points: &Vec<Point>) -> (cost: u128)
    requires
        in_range(order@, points.len() as nat),
    ensures
        cost == cycle_cost(points@, order@),
{
    let len = order.len();
    if len == 0 {
        return 0;
    }
    let mut total: u128 = points[order[0]].distance(&points[order[len - 1]]) as u128;
    proof {
        lemma_dist_symmetric(points@[order@[0] as int], points@[order@[len - 1] as int]);
        assert(order@.take(1).len() == 1);
    }
    let mut i: usize = 0;
    while i < len - 1
        invariant
            len == order.len(),
            len > 0,
            0 <= i <= len - 1,
            in_range(order@, points.len() as nat),
            total == path_cost(points@, order@.take(i + 1)) + edge(
                points@,
                order@.last(),
                order@[0],
            ),
            total <= (i + 1) * max_dist(),
        decreases len - 1 - i,
    {
        let step = points[order[i]].distance(&points[order[i + 1]]);
        proof {
            lemma_path_cost_take(points@, order@, i + 1);
            assert((i + 2) * max_dist() <= 0x1_0000_0000_0000_0000 * 0x2_0000_0000)
                by (nonlinear_arith)
                requires
                    0 <= i + 2 <= 0x1_0000_0000_0000_0000,
                    max_dist() == 0x2_0000_0000,
            ;
        }
        total = total + step as u128;
        i = i + 1;
    }
    proof {
        assert(order@.take(len as int) =~= order@);
    }
    total
}

} // verus!
