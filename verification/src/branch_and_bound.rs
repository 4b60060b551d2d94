//! Exact search by branch and bound.
//!
//! The search walks the tree of partial tours that start at index 0, depth
//! first. At each node it tries the unvisited cities in the order of their
//! distance from the current city, and gives a branch up as soon as the path
//! so far is no shorter than the best complete tour found.

use vstd::prelude::*;
use crate::geometry::Point;
use crate::geometry::lemma_dist_bound;
use crate::geometry::max_dist;
use crate::ranking::is_ranking;
use crate::ranking::rank_by_key;
use crate::ranking::ranks_before;
use crate::tour::cycle_cost;
use crate::tour::distinct;
use crate::tour::edge;
use crate::tour::identity_order;
use crate::tour::in_range;
use crate::tour::is_optimal_tour;
use crate::tour::is_tour;
use crate::tour::lemma_cycle_cost_bound;
use crate::tour::lemma_identity_is_tour;
use crate::tour::lemma_path_cost_bound;
use crate::tour::lemma_path_cost_prefix;
use crate::tour::lemma_path_cost_push;
use crate::tour::lemma_tour_from_zero;
use crate::tour::path_cost;

verus! {

/// One node of the search: a partial tour, the cities on it, and its length.
/// The current city is the last of `path`.
pub struct SearchState {
    pub path: Vec<usize>,
    pub visited: Vec<bool>,
    pub current_distance: u128,
}

/// The best complete tour found so far and its cost. Before any tour is
/// found the tour is empty and the cost is `u128::MAX`, which no tour reaches.
pub struct BestResult {
    pub tour: Vec<usize>,
    pub cost: u128,
}

/// `tour` begins with `path`.
pub open spec fn extends(path: Seq<usize>, tour: Seq<usize>) -> bool {
    &&& path.len() <= tour.len()
    &&& forall|i: int| 0 <= i < path.len() ==> tour[i] == path[i]
}

/// From city `from`, the search tries city `a` before city `b`: `a` is
/// nearer, or as near and the smaller index.
pub open spec fn tried_before(points: Seq<Point>, from: usize, a: usize, b: usize) -> bool {
    edge(points, from, a) < edge(points, from, b) || (edge(points, from, a) == edge(
        points,
        from,
        b,
    ) && a < b)
}

/// The search comes to tour `a` no later than to tour `b`: they are the same,
/// or where they first part, `a` takes the city that is tried first.
pub open spec fn reached_no_later(points: Seq<Point>, a: Seq<usize>, b: Seq<usize>) -> bool {
    a == b || exists|k: int|
        1 <= k < a.len() && k < b.len() && extends(a.take(k), b) && tried_before(
            points,
            a[k - 1],
            a[k],
            #[trigger] b[k],
        )
}

/// What the search returns: an optimal tour that starts at index 0, and among
/// the optimal tours that start there the one that the search comes to first.
pub open spec fn is_branch_and_bound_tour(points: Seq<Point>, tour: Seq<usize>) -> bool {
    &&& is_optimal_tour(points, tour)
    &&& points.len() > 0 ==> tour[0] == 0
    &&& forall|other: Seq<usize>|
        #![trigger is_tour(other, points.len())]
        is_tour(other, points.len()) && other[0] == 0 && cycle_cost(points, other) == cycle_cost(
            points,
            tour,
        ) ==> reached_no_later(points, tour, other)
}

impl SearchState {
    /// The path starts at index 0 and visits no city twice, `visited` marks
    /// exactly the cities on it, and `current_distance` is its length.
    pub open spec fn wf(&self, points: Seq<Point>) -> bool {
        &&& 0 < self.path@.len() <= points.len()
        &&& self.path@[0] == 0
        &&& in_range(self.path@, points.len())
        &&& distinct(self.path@)
        &&& self.visited@.len() == points.len()
        &&& forall|v: usize|
            v < points.len() ==> (self.visited@[v as int] <==> #[trigger] self.path@.contains(v))
        &&& self.current_distance == path_cost(points, self.path@)
    }
}

impl BestResult {
    /// Either nothing was found yet, or `tour` is a tour from index 0 and
    /// `cost` is its cost.
    pub open spec fn wf(&self, points: Seq<Point>) -> bool {
        if self.cost == u128::MAX {
            self.tour@.len() == 0
        } else {
            &&& is_tour(self.tour@, points.len())
            &&& self.tour@[0] == 0
            &&& self.cost == cycle_cost(points, self.tour@)
        }
    }
}

proof fn lemma_extension_child(path: Seq<usize>, tour: Seq<usize>, n: nat)
    requires
        is_tour(tour, n),
        extends(path, tour),
        path.len() < n,
    ensures
        tour[path.len() as int] < n,
        !path.contains(tour[path.len() as int]),
        extends(path.push(tour[path.len() as int]), tour),
{
    let c = tour[path.len() as int];
    if path.contains(c) {
        let i = choose|i: int| 0 <= i < path.len() && path[i] == c;
        assert(tour[i] == path[i]);
    }
}

proof fn lemma_extension_cost(points: Seq<Point>, path: Seq<usize>, tour: Seq<usize>)
    requires
        extends(path, tour),
    ensures
        path_cost(points, path) <= cycle_cost(points, tour),
{
    assert(tour.take(path.len() as int) =~= path);
    lemma_path_cost_prefix(points, tour, path.len() as int);
}

fn copy_order(order: &Vec<usize>) -> (copy: Vec<usize>)
    ensures
        copy@ == order@,
{
    let mut copy: Vec<usize> = Vec::new();
    let mut i: usize = 0;
    while i < order.len()
        invariant
            0 <= i <= order.len(),
            copy@ == order@.take(i as int),
        decreases order.len() - i,
    {
        copy.push(order[i]);
        assert(order@.take(i + 1) =~= order@.take(i as int).push(order@[i as int]));
        i = i + 1;
    }
    assert(order@.take(order.len() as int) =~= order@);
    copy
}

fn distances_from(points: &Vec<Point>, from: usize) -> (keys: Vec<u64>)
    requires
        from < points.len(),
    ensures
        keys.len() == points.len(),
        forall|c: usize| c < points.len() ==> keys[c as int] == #[trigger] edge(points@, from, c),
{
    let mut keys: Vec<u64> = Vec::new();
    let mut c: usize = 0;
    while c < points.len()
        invariant
            from < points.len(),
            0 <= c <= points.len(),
            keys.len() == c,
            forall|j: usize| j < c ==> keys[j as int] == #[trigger] edge(points@, from, j),
        decreases points.len() - c,
    {
        keys.push(points[from].distance(&points[c]));
        c = c + 1;
    }
    keys
}

/// Searches every tour that begins with `state.path`, and leaves in `best`
/// the better of what it held and the first cheapest tour among them.
///
/// `state` is the same after the call as before it.
pub fn branch_and_bound(points: &Vec<Point>, state: &mut SearchState, best: &mut BestResult)
    requires
        old(state).wf(points@),
        old(best).wf(points@),
    ensures
        final(state).path@ == old(state).path@,
        final(state).visited@ == old(state).visited@,
        final(state).current_distance == old(state).current_distance,
        final(best).wf(points@),
        final(best).cost <= old(best).cost,
        final(best).cost == old(best).cost ==> final(best).tour@ == old(best).tour@,
        forall|tour: Seq<usize>|
            #![trigger extends(old(state).path@, tour)]
            is_tour(tour, points.len() as nat) && extends(old(state).path@, tour)
                ==> final(best).cost <= cycle_cost(points@, tour),
        final(best).cost < old(best).cost ==> extends(old(state).path@, final(best).tour@),
        final(best).cost < old(best).cost ==> forall|tour: Seq<usize>|
            #![trigger extends(old(state).path@, tour)]
            is_tour(tour, points.len() as nat) && extends(old(state).path@, tour) && cycle_cost(
                points@,
                tour,
            ) == final(best).cost ==> reached_no_later(points@, final(best).tour@, tour),
    decreases points.len() - old(state).path.len(),
{
    let n = points.len();
    let depth = state.path.len();
    let current = state.path[depth - 1];
    let ghost path0 = state.path@;
    let ghost visited0 = state.visited@;
    let ghost cost0 = best.cost;
    let ghost tour0 = best.tour@;
    let distance0 = state.current_distance;
    proof {
        lemma_path_cost_bound(points@, path0);
        assert(depth * max_dist() <= 0x1_0000_0000_0000_0000 * 0x2_0000_0000) by (nonlinear_arith)
            requires
                0 <= depth <= 0x1_0000_0000_0000_0000,
                max_dist() == 0x2_0000_0000,
        ;
    }
    if depth == n {
        let total = distance0 + points[current].distance(&points[0]) as u128;
        assert(total == cycle_cost(points@, path0));
        assert forall|tour: Seq<usize>|
            #![trigger extends(path0, tour)]
            is_tour(tour, n as nat) && extends(path0, tour) implies tour == path0 by {
            assert(tour =~= path0);
        }
        if total < best.cost {
            best.cost = total;
            best.tour = copy_order(&state.path);
        }
        return ;
    }
    let keys = distances_from(points, current);
    let candidates = rank_by_key(&keys, &state.visited);
    let mut k: usize = 0;
    while k < candidates.len()
        invariant
            n == points.len(),
            depth == path0.len(),
            depth == old(state).path.len(),
            depth < n,
            current == path0[depth - 1],
            state.path@ == path0,
            state.visited@ == visited0,
            state.current_distance == distance0,
            state.wf(points@),
            best.wf(points@),
            best.cost <= cost0,
            best.cost == cost0 ==> best.tour@ == tour0,
            keys.len() == n,
            forall|c: usize| c < n ==> keys[c as int] == #[trigger] edge(points@, current, c),
            is_ranking(keys@, visited0, candidates@),
            0 <= k <= candidates.len(),
            distance0 + max_dist() < u128::MAX,
            forall|j: int, tour: Seq<usize>|
                #![trigger extends(path0.push(candidates@[j]), tour)]
                0 <= j < k && is_tour(tour, n as nat) && extends(path0.push(candidates@[j]), tour)
                    ==> best.cost <= cycle_cost(points@, tour),
            best.cost < cost0 ==> extends(path0, best.tour@),
            best.cost < cost0 ==> forall|tour: Seq<usize>|
                #![trigger extends(path0, tour)]
                is_tour(tour, n as nat) && extends(path0, tour) && cycle_cost(points@, tour)
                    == best.cost ==> reached_no_later(points@, best.tour@, tour),
        ensures
            state.path@ == path0,
            state.visited@ == visited0,
            state.current_distance == distance0,
            best.wf(points@),
            best.cost <= cost0,
            best.cost == cost0 ==> best.tour@ == tour0,
            0 <= k <= candidates.len(),
            forall|j: int, tour: Seq<usize>|
                #![trigger extends(path0.push(candidates@[j]), tour)]
                0 <= j < k && is_tour(tour, n as nat) && extends(path0.push(candidates@[j]), tour)
                    ==> best.cost <= cycle_cost(points@, tour),
            k < candidates.len() ==> distance0 + keys[candidates@[k as int] as int] >= best.cost,
            best.cost < cost0 ==> extends(path0, best.tour@),
            best.cost < cost0 ==> forall|tour: Seq<usize>|
                #![trigger extends(path0, tour)]
                is_tour(tour, n as nat) && extends(path0, tour) && cycle_cost(points@, tour)
                    == best.cost ==> reached_no_later(points@, best.tour@, tour),
        decreases candidates.len() - k,
    {
        let next = candidates[k];
        let step = keys[next];
        proof {
            lemma_dist_bound(points@[current as int], points@[next as int]);
            assert(step == edge(points@, current, next));
        }
        if distance0 + step as u128 >= best.cost {
            break ;
        }
        let ghost before_cost = best.cost;
        let ghost before_tour = best.tour@;
        proof {
            lemma_path_cost_push(points@, path0, next);
            assert(!path0.contains(next));
            let path1 = path0.push(next);
            assert(distinct(path1)) by {
                assert forall|i: int, j: int| 0 <= i < j < path1.len() implies path1[i]
                    != path1[j] by {
                    if j == path0.len() {
                        assert(path0.contains(path0[i]));
                    }
                }
            }
            assert forall|v: usize| v < n implies (visited0.update(next as int, true)[v as int]
                <==> #[trigger] path1.contains(v)) by {
                if v == next {
                    assert(path1[path0.len() as int] == v);
                } else if path0.contains(v) {
                    let i = choose|i: int| 0 <= i < path0.len() && path0[i] == v;
                    assert(path1[i] == v);
                } else if path1.contains(v) {
                    let i = choose|i: int| 0 <= i < path1.len() && path1[i] == v;
                    assert(path0[i] == v);
                }
            }
        }
        state.visited.set(next, true);
        state.path.push(next);
        state.current_distance = distance0 + step as u128;
        branch_and_bound(points, state, best);
        state.path.pop();
        state.visited.set(next, false);
        state.current_distance = distance0;
        proof {
            let path1 = path0.push(next);
            assert(state.path@ =~= path0);
            assert(state.visited@ =~= visited0);
            if best.cost < before_cost {
                assert(extends(path0, best.tour@));
                assert forall|tour: Seq<usize>|
                    #![trigger extends(path0, tour)]
                    is_tour(tour, n as nat) && extends(path0, tour) && cycle_cost(points@, tour)
                        == best.cost implies reached_no_later(points@, best.tour@, tour) by {
                    lemma_extension_child(path0, tour, n as nat);
                    let c = tour[depth as int];
                    assert(!visited0[c as int]);
                    assert(candidates@.contains(c));
                    let j = choose|j: int| 0 <= j < candidates@.len() && candidates@[j] == c;
                    assert(extends(path0.push(candidates@[j]), tour));
                    if j < k {
                        assert(before_cost <= cycle_cost(points@, tour));
                    } else if j == k {
                        assert(extends(path1, tour));
                    } else {
                        assert(ranks_before(keys@, candidates@[k as int], candidates@[j]));
                        assert(best.tour@[depth as int] == next);
                        assert(best.tour@[depth - 1] == current);
                        assert(extends(best.tour@.take(depth as int), tour));
                        assert(tried_before(points@, current, next, c));
                    }
                }
            }
            assert forall|j: int, tour: Seq<usize>|
                #![trigger extends(path0.push(candidates@[j]), tour)]
                0 <= j < k + 1 && is_tour(tour, n as nat) && extends(
                    path0.push(candidates@[j]),
                    tour,
                ) implies best.cost <= cycle_cost(points@, tour) by {
                if j == k {
                    assert(extends(path1, tour));
                }
            }
        }
        k = k + 1;
    }
    proof {
        assert forall|tour: Seq<usize>|
            #![trigger extends(path0, tour)]
            is_tour(tour, n as nat) && extends(path0, tour) implies best.cost <= cycle_cost(
            points@,
            tour,
        ) by {
            lemma_extension_child(path0, tour, n as nat);
            let c = tour[depth as int];
            assert(!visited0[c as int]);
            assert(candidates@.contains(c));
            let j = choose|j: int| 0 <= j < candidates@.len() && candidates@[j] == c;
            assert(extends(path0.push(candidates@[j]), tour));
            if j >= k {
                if j > k {
                    assert(ranks_before(keys@, candidates@[k as int], candidates@[j]));
                }
                lemma_extension_cost(points@, path0.push(c), tour);
                lemma_path_cost_push(points@, path0, c);
                assert(keys[c as int] == edge(points@, current, c));
                assert(keys[candidates@[k as int] as int] == edge(
                    points@,
                    current,
                    candidates@[k as int],
                ));
            }
        }
    }
}

/// Finds an optimal tour by branch and bound.
///
/// The search starts at index 0. Of several optimal tours it returns the one
/// that it comes to first, so the result is the same on every run. In the
/// worst case it walks all `(n - 1)!` orders of the other cities, the count
/// that `branch_and_bound_operations` computes; it never gives up on its own.
pub fn branch_and_bound_tour(points: &Vec<Point>) -> (tour: Vec<usize>)
    ensures
        is_branch_and_bound_tour(points@, tour@),
{
    let n = points.len();
    if n == 0 {
        let tour: Vec<usize> = Vec::new();
        assert forall|other: Seq<usize>| #[trigger] is_tour(other, 0) implies cycle_cost(
            points@,
            tour@,
        ) <= cycle_cost(points@, other) by {}
        assert forall|other: Seq<usize>| #[trigger] is_tour(other, 0) implies reached_no_later(
            points@,
            tour@,
            other,
        ) by {
            assert(other =~= tour@);
        }
        return tour;
    }
    let mut visited: Vec<bool> = Vec::new();
    let mut i: usize = 0;
    while i < n
        invariant
            0 <= i <= n,
            visited.len() == i,
            forall|j: int| 0 <= j < i ==> visited[j] == (j == 0),
        decreases n - i,
    {
        visited.push(i == 0);
        i = i + 1;
    }
    let mut path: Vec<usize> = Vec::new();
    path.push(0);
    let mut state = SearchState { path, visited, current_distance: 0 };
    let mut best = BestResult { tour: Vec::new(), cost: u128::MAX };
    proof {
        assert(state.path@ =~= seq![0usize]);
        assert forall|v: usize| v < n implies (state.visited@[v as int]
            <==> #[trigger] state.path@.contains(v)) by {
            if v == 0 {
                assert(state.path@[0] == v);
            }
        }
    }
    branch_and_bound(points, &mut state, &mut best);
    proof {
        let start = seq![0usize];
        lemma_identity_is_tour(n as nat);
        let id = identity_order(n as nat);
        assert(extends(start, id));
        lemma_cycle_cost_bound(points@, id);
        assert(n * max_dist() <= 0x1_0000_0000_0000_0000 * 0x2_0000_0000) by (nonlinear_arith)
            requires
                0 <= n <= 0x1_0000_0000_0000_0000,
                max_dist() == 0x2_0000_0000,
        ;
        assert(best.cost < u128::MAX);
        assert forall|other: Seq<usize>| #[trigger] is_tour(other, n as nat) implies cycle_cost(
            points@,
            best.tour@,
        ) <= cycle_cost(points@, other) by {
            let from_zero = lemma_tour_from_zero(points@, other);
            assert(extends(start, from_zero));
        }
        assert forall|other: Seq<usize>|
            #![trigger is_tour(other, n as nat)]
            is_tour(other, n as nat) && other[0] == 0 && cycle_cost(points@, other) == cycle_cost(
                points@,
                best.tour@,
            ) implies reached_no_later(points@, best.tour@, other) by {
            assert(extends(start, other));
        }
    }
    best.tour
}

/// At most one tour is what the search returns.
pub proof fn lemma_branch_and_bound_tour_unique(points: Seq<Point>, a: Seq<usize>, b: Seq<usize>)
    requires
        is_branch_and_bound_tour(points, a),
        is_branch_and_bound_tour(points, b),
    ensures
        a == b,
{
    if points.len() > 0 && a != b {
        assert(is_tour(a, points.len()) && is_tour(b, points.len()));
        assert(cycle_cost(points, a) == cycle_cost(points, b));
        assert(reached_no_later(points, a, b));
        assert(reached_no_later(points, b, a));
        let k = choose|k: int|
            1 <= k < a.len() && k < b.len() && extends(a.take(k), b) && tried_before(
                points,
                a[k - 1],
                a[k],
                #[trigger] b[k],
            );
        let m = choose|m: int|
            1 <= m < b.len() && m < a.len() && extends(b.take(m), a) && tried_before(
                points,
                b[m - 1],
                b[m],
                #[trigger] a[m],
            );
        assert(a.take(k)[k - 1] == b[k - 1]);
        assert(b.take(m)[m - 1] == a[m - 1]);
        if k < m {
            assert(b.take(m)[k] == a[k]);
        } else if m < k {
            assert(a.take(k)[m] == b[m]);
        }
    } else if points.len() == 0 {
        assert(a =~= b);
    }
}

} // verus!
