//! Laws that hold between the constructors.

use vstd::prelude::*;
use crate::branch_and_bound::is_branch_and_bound_tour;
use crate::brute_force::is_brute_force_tour;
use crate::brute_force::lemma_brute_force_tour_is_optimal;
use crate::geometry::Point;
use crate::geometry::ceil_sqrt;
use crate::geometry::dist;
use crate::geometry::distance_squared;
use crate::geometry::lemma_ceil_sqrt_monotone;
use crate::geometry::lemma_ceil_sqrt_unique;
use crate::heuristics::is_nearest_neighbour_tour;
use crate::heuristics::is_radial_tour;
use crate::heuristics::lemma_nearest_neighbour_tour_is_tour;
use crate::heuristics::lemma_radial_tour_is_tour;
use crate::insertion::insertion_order;
use crate::insertion::lemma_insertion_order_is_tour;
use crate::nearest::is_closest_unvisited;
use crate::nearest::nearer_or_first;
use crate::tour::cycle_cost;
use crate::tour::edge;
use crate::tour::identity_order;
use crate::tour::is_optimal_tour;
use crate::tour::is_tour;
use crate::tour::lemma_cycle_cost_at_least_round_trip;
use crate::tour::lemma_distinct_in_range;
use crate::tour::lemma_identity_is_tour;
use crate::tour::lemma_path_cost_take;
use crate::tour::path_cost;

verus! {

/// The two exact searches return tours of the same cost, and no tour of the
/// instance costs less.
pub proof fn lemma_exact_searches_dominate(
    points: Seq<Point>,
    by_bound: Seq<usize>,
    by_enumeration: Seq<usize>,
    other: Seq<usize>,
)
    requires
        points.len() <= usize::MAX,
        is_branch_and_bound_tour(points, by_bound),
        is_brute_force_tour(points, by_enumeration),
        is_tour(other, points.len()),
    ensures
        cycle_cost(points, by_bound) == cycle_cost(points, by_enumeration),
        cycle_cost(points, by_enumeration) <= cycle_cost(points, other),
{
    lemma_brute_force_tour_is_optimal(points, by_enumeration);
    assert(is_tour(by_bound, points.len()));
    assert(is_tour(by_enumeration, points.len()));
}

/// No heuristic beats the exact searches: the tour of either costs no more
/// than the identity order, the radial tour for any angle keys, the
/// nearest-neighbour tour and the insertion order.
pub proof fn lemma_exact_searches_beat_heuristics(
    points: Seq<Point>,
    by_bound: Seq<usize>,
    by_enumeration: Seq<usize>,
    angle_keys: Seq<u64>,
    radial: Seq<usize>,
    greedy: Seq<usize>,
)
    requires
        points.len() <= usize::MAX,
        is_branch_and_bound_tour(points, by_bound),
        is_brute_force_tour(points, by_enumeration),
        angle_keys.len() == points.len(),
        is_radial_tour(angle_keys, radial),
        is_nearest_neighbour_tour(points, greedy),
    ensures
        cycle_cost(points, by_bound) == cycle_cost(points, by_enumeration),
        cycle_cost(points, by_enumeration) <= cycle_cost(points, identity_order(points.len())),
        cycle_cost(points, by_enumeration) <= cycle_cost(points, radial),
        cycle_cost(points, by_enumeration) <= cycle_cost(points, greedy),
        cycle_cost(points, by_enumeration) <= cycle_cost(points, insertion_order(points)),
{
    lemma_identity_is_tour(points.len());
    lemma_radial_tour_is_tour(angle_keys, radial);
    lemma_nearest_neighbour_tour_is_tour(points, greedy);
    lemma_insertion_order_is_tour(points);
    lemma_exact_searches_dominate(points, by_bound, by_enumeration, identity_order(points.len()));
    lemma_exact_searches_dominate(points, by_bound, by_enumeration, radial);
    lemma_exact_searches_dominate(points, by_bound, by_enumeration, greedy);
    lemma_exact_searches_dominate(points, by_bound, by_enumeration, insertion_order(points));
}

/// The points lie on a line, each one step of `(dx, dy)` after the one
/// before it.
pub open spec fn is_equally_spaced(points: Seq<Point>, dx: int, dy: int) -> bool {
    forall|i: int|
        0 <= i < points.len() ==> (#[trigger] points[i]).x == points[0].x + i * dx && points[i].y
            == points[0].y + i * dy
}

proof fn lemma_spaced_distance(points: Seq<Point>, dx: int, dy: int, i: int, j: int)
    requires
        is_equally_spaced(points, dx, dy),
        0 <= i < points.len(),
        0 <= j < points.len(),
    ensures
        distance_squared(points[i], points[j]) == (i - j) * (i - j) * (dx * dx + dy * dy),
        dx * dx + dy * dy >= 0,
{
    let a = points[i];
    let b = points[j];
    let ex = a.x - b.x;
    let ey = a.y - b.y;
    assert(ex == (i - j) * dx) by (nonlinear_arith)
        requires
            ex == (points[0].x + i * dx) - (points[0].x + j * dx),
    ;
    assert(ey == (i - j) * dy) by (nonlinear_arith)
        requires
            ey == (points[0].y + i * dy) - (points[0].y + j * dy),
    ;
    assert(ex * ex + ey * ey == (i - j) * (i - j) * (dx * dx + dy * dy)) by (nonlinear_arith)
        requires
            ex == (i - j) * dx,
            ey == (i - j) * dy,
    ;
    assert(ex * ex >= 0 && ey * ey >= 0 && dx * dx >= 0 && dy * dy >= 0) by (nonlinear_arith);
}

proof fn lemma_sweep_path(points: Seq<Point>, dx: int, dy: int, k: int)
    requires
        is_equally_spaced(points, dx, dy),
        1 <= k <= points.len() <= usize::MAX,
    ensures
        path_cost(points, identity_order(points.len()).take(k)) == (k - 1) * ceil_sqrt(
            (dx * dx + dy * dy) as nat,
        ),
    decreases k,
{
    let order = identity_order(points.len());
    let gap = ceil_sqrt((dx * dx + dy * dy) as nat);
    if k == 1 {
        assert(order.take(1).len() == 1);
    } else {
        lemma_sweep_path(points, dx, dy, k - 1);
        lemma_path_cost_take(points, order, k - 1);
        lemma_spaced_distance(points, dx, dy, k - 2, k - 1);
        let back = (k - 2) - (k - 1);
        assert(back * back * (dx * dx + dy * dy) == dx * dx + dy * dy) by (nonlinear_arith)
            requires
                back == -1,
        ;
        assert(order[k - 2] == k - 2 && order[k - 1] == k - 1);
        assert(edge(points, order[k - 2], order[k - 1]) == gap);
        assert((k - 1) * gap == (k - 2) * gap + gap) by (nonlinear_arith);
    }
}

/// On equally spaced points of a line, numbered from one end, the
/// nearest-neighbour tour is the sweep from that end: the identity order. It
/// costs one gap for each step out, and the distance between the two ends for
/// the way back.
pub proof fn lemma_nearest_neighbour_sweeps_a_line(points: Seq<Point>, dx: int, dy: int)
    requires
        0 < points.len() <= usize::MAX,
        is_equally_spaced(points, dx, dy),
        dx != 0 || dy != 0,
    ensures
        is_nearest_neighbour_tour(points, identity_order(points.len())),
        cycle_cost(points, identity_order(points.len())) == (points.len() - 1) * ceil_sqrt(
            (dx * dx + dy * dy) as nat,
        ) + dist(points[points.len() - 1], points[0]),
{
    let n = points.len();
    let order = identity_order(n);
    let step = dx * dx + dy * dy;
    assert forall|i: int| 1 <= i < order.len() implies is_closest_unvisited(
        points,
        points[order[i - 1] as int],
        order.take(i),
        #[trigger] order[i],
    ) by {
        let target = points[i - 1];
        let seen = order.take(i);
        if seen.contains(i as usize) {
            let at = choose|at: int| 0 <= at < seen.len() && seen[at] == i as usize;
            assert(seen[at] == at);
        }
        assert forall|j: usize| j < n && !(#[trigger] seen.contains(j)) implies nearer_or_first(
            points,
            target,
            i as usize,
            j,
        ) by {
            if j < i {
                assert(seen[j as int] == j);
            } else {
                lemma_spaced_distance(points, dx, dy, i, i - 1);
                lemma_spaced_distance(points, dx, dy, j as int, i - 1);
                let near = i - (i - 1);
                let far = j - (i - 1);
                assert(near * near * step == step) by (nonlinear_arith)
                    requires
                        near == 1,
                ;
                assert(far * far * step >= step) by (nonlinear_arith)
                    requires
                        far >= 1,
                        step >= 0,
                ;
                lemma_ceil_sqrt_monotone(
                    distance_squared(points[i], target),
                    distance_squared(points[j as int], target),
                );
            }
        }
    }
    lemma_sweep_path(points, dx, dy, n as int);
    assert(order.take(n as int) =~= order);
}

/// Where the gap between neighbours on the line is a whole number of units,
/// the sweep costs twice the sum of the gaps, there and back, and no tour
/// costs less.
pub proof fn lemma_sweep_costs_there_and_back(points: Seq<Point>, dx: int, dy: int, gap: nat)
    requires
        0 < points.len() <= usize::MAX,
        is_equally_spaced(points, dx, dy),
        dx != 0 || dy != 0,
        gap * gap == dx * dx + dy * dy,
    ensures
        is_nearest_neighbour_tour(points, identity_order(points.len())),
        cycle_cost(points, identity_order(points.len())) == 2 * ((points.len() - 1) * gap),
        is_optimal_tour(points, identity_order(points.len())),
{
    let n = points.len();
    lemma_nearest_neighbour_sweeps_a_line(points, dx, dy);
    lemma_identity_is_tour(n);
    assert((n - 1) * gap >= 0) by (nonlinear_arith)
        requires
            n >= 1,
            gap >= 0,
    ;
    let reach = ((n - 1) * gap) as nat;
    lemma_whole_root(gap);
    lemma_whole_root(reach);
    lemma_spaced_distance(points, dx, dy, n - 1, 0);
    let ends = n - 1 - 0;
    assert(ends * ends * (dx * dx + dy * dy) == reach * reach) by (nonlinear_arith)
        requires
            ends == n - 1,
            reach == (n - 1) * gap,
            gap * gap == dx * dx + dy * dy,
    ;
    assert(distance_squared(points[n - 1], points[0]) == reach * reach);
    assert((dx * dx + dy * dy) as nat == gap * gap);
    assert forall|other: Seq<usize>| #[trigger] is_tour(other, n) implies cycle_cost(
        points,
        identity_order(n),
    ) <= cycle_cost(points, other) by {
        if n > 1 {
            lemma_distinct_in_range(other, n);
            let first = 0usize;
            let last = (n - 1) as usize;
            assert(other.contains(first));
            assert(other.contains(last));
            let i = choose|i: int| 0 <= i < other.len() && other[i] == first;
            let j = choose|j: int| 0 <= j < other.len() && other[j] == last;
            if i < j {
                lemma_cycle_cost_at_least_round_trip(points, other, i, j);
                crate::geometry::lemma_dist_symmetric(points[0], points[n - 1]);
            } else {
                lemma_cycle_cost_at_least_round_trip(points, other, j, i);
            }
        } else {
            assert(reach == 0) by (nonlinear_arith)
                requires
                    reach == (n - 1) * gap,
                    n == 1,
            ;
        }
    }
}

proof fn lemma_whole_root(m: nat)
    ensures
        ceil_sqrt(m * m) == m,
{
    if m > 0 {
        assert((m - 1) * (m - 1) < m * m) by (nonlinear_arith)
            requires
                m >= 1,
        ;
    }
    lemma_ceil_sqrt_unique(m * m, m);
}

} // verus!
