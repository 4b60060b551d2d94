//! The insertion heuristic.
//!
//! The tour is grown from a cycle of the three points nearest to the centroid.
//! Each round probes the midpoint of every edge of the cycle for the nearest
//! point that is still free, and inserts the point with the best score into
//! the edge that found it.

use vstd::prelude::*;
use crate::geometry::Point;
use crate::geometry::centroid;
use crate::geometry::centroid_of;
use crate::geometry::dist;
use crate::geometry::midpoint_of;
use crate::heuristics::identity_tour;
use crate::nearest::closest_of;
use crate::nearest::closest_unvisited;
use crate::nearest::lemma_closest_exists;
use crate::nearest::lemma_some_index_free;
use crate::tour::distinct;
use crate::tour::identity_order;
use crate::tour::in_range;
use crate::tour::is_tour;
use crate::tour::lemma_identity_is_tour;

verus! {

/// The first `k` seeds: the points nearest to the centroid, nearest first.
pub open spec fn seed_cycle(points: Seq<Point>, k: nat) -> Seq<usize>
    decreases k,
{
    if k == 0 {
        Seq::empty()
    } else {
        let earlier = seed_cycle(points, (k - 1) as nat);
        match closest_of(points, centroid_of(points), earlier) {
            Some(c) => earlier.push(c),
            None => earlier,
        }
    }
}

/// The stop before position `i` on the cycle.
pub open spec fn stop_before(cycle: Seq<usize>, i: int) -> usize {
    if i > 0 {
        cycle[i - 1]
    } else {
        cycle.last()
    }
}

/// The midpoint of the edge that ends at position `i` of the cycle.
pub open spec fn edge_probe(points: Seq<Point>, cycle: Seq<usize>, i: int) -> Point {
    midpoint_of(points[stop_before(cycle, i) as int], points[cycle[i] as int])
}

/// The free point nearest to the midpoint of the edge that ends at position
/// `i`.
pub open spec fn insertion_candidate(points: Seq<Point>, cycle: Seq<usize>, i: int) -> Option<
    usize,
> {
    closest_of(points, edge_probe(points, cycle, i), cycle)
}

/// The score of inserting the candidate of the edge that ends at position
/// `i`: its distance from the midpoint of the edge, less the distance of the
/// edge's first end from that midpoint. Lower is better.
pub open spec fn insertion_score(points: Seq<Point>, cycle: Seq<usize>, i: int) -> int {
    let probe = edge_probe(points, cycle, i);
    match insertion_candidate(points, cycle, i) {
        Some(c) => dist(probe, points[c as int]) - dist(
            probe,
            points[stop_before(cycle, i) as int],
        ),
        None => 0,
    }
}

/// Position `i` has the lowest score, and is the first position that has it.
pub open spec fn is_best_insertion(points: Seq<Point>, cycle: Seq<usize>, i: int) -> bool {
    &&& 0 <= i < cycle.len()
    &&& forall|j: int|
        0 <= j < cycle.len() ==> insertion_score(points, cycle, i) < #[trigger] insertion_score(
            points,
            cycle,
            j,
        ) || (insertion_score(points, cycle, i) == insertion_score(points, cycle, j) && i <= j)
}

/// The position at which the next point is inserted.
pub open spec fn best_insertion(points: Seq<Point>, cycle: Seq<usize>) -> int {
    choose|i: int| is_best_insertion(points, cycle, i)
}

/// The cycle after one more round of insertion.
pub open spec fn grow(points: Seq<Point>, cycle: Seq<usize>) -> Seq<usize> {
    let i = best_insertion(points, cycle);
    match insertion_candidate(points, cycle, i) {
        Some(c) => cycle.insert(i, c),
        None => cycle,
    }
}

/// The cycle after `rounds` rounds of insertion into the seed cycle.
pub open spec fn insertion_cycle(points: Seq<Point>, rounds: nat) -> Seq<usize>
    decreases rounds,
{
    if rounds == 0 {
        seed_cycle(points, 3)
    } else {
        grow(points, insertion_cycle(points, (rounds - 1) as nat))
    }
}

/// The tour that the insertion heuristic builds. Up to three points are taken
/// in index order; beyond that, one round of insertion places each point that
/// is not a seed.
pub open spec fn insertion_order(points: Seq<Point>) -> Seq<usize> {
    if points.len() <= 3 {
        identity_order(points.len())
    } else {
        insertion_cycle(points, (points.len() - 3) as nat)
    }
}

proof fn lemma_best_insertion_unique(points: Seq<Point>, cycle: Seq<usize>, i: int)
    requires
        is_best_insertion(points, cycle, i),
    ensures
        best_insertion(points, cycle) == i,
{
    let j = best_insertion(points, cycle);
    assert(is_best_insertion(points, cycle, j));
    let si = insertion_score(points, cycle, i);
    let sj = insertion_score(points, cycle, j);
    assert(si < sj || (si == sj && i <= j));
    assert(sj < si || (sj == si && j <= i));
}

proof fn lemma_insert_keeps_distinct(cycle: Seq<usize>, n: nat, i: int, c: usize)
    requires
        in_range(cycle, n),
        distinct(cycle),
        0 <= i <= cycle.len(),
        c < n,
        !cycle.contains(c),
    ensures
        in_range(cycle.insert(i, c), n),
        distinct(cycle.insert(i, c)),
{
    let grown = cycle.insert(i, c);
    assert forall|a: int| 0 <= a < grown.len() implies #[trigger] grown[a] < n by {
        if a < i {
            assert(grown[a] == cycle[a]);
        } else if a > i {
            assert(grown[a] == cycle[a - 1]);
        }
    }
    assert forall|a: int, b: int| 0 <= a < b < grown.len() implies grown[a] != grown[b] by {
        let oa = if a < i { a } else { a - 1 };
        let ob = if b < i { b } else { b - 1 };
        if a != i {
            assert(grown[a] == cycle[oa]);
            assert(cycle.contains(cycle[oa]));
        }
        if b != i {
            assert(grown[b] == cycle[ob]);
            assert(cycle.contains(cycle[ob]));
        }
    }
}

proof fn lemma_seed_cycle(points: Seq<Point>, k: nat)
    requires
        k <= points.len() <= usize::MAX,
    ensures
        seed_cycle(points, k).len() == k,
        in_range(seed_cycle(points, k), points.len()),
        distinct(seed_cycle(points, k)),
    decreases k,
{
    if k > 0 {
        lemma_seed_cycle(points, (k - 1) as nat);
        let earlier = seed_cycle(points, (k - 1) as nat);
        lemma_some_index_free(points, earlier);
        let c = lemma_closest_exists(points, centroid_of(points), earlier);
        assert(earlier.push(c) =~= earlier.insert(earlier.len() as int, c));
        lemma_insert_keeps_distinct(earlier, points.len(), earlier.len() as int, c);
    }
}

proof fn lemma_best_among_first(points: Seq<Point>, cycle: Seq<usize>, m: nat) -> (best: int)
    requires
        0 < m <= cycle.len(),
    ensures
        0 <= best < m,
        forall|j: int|
            0 <= j < m ==> insertion_score(points, cycle, best) < #[trigger] insertion_score(
                points,
                cycle,
                j,
            ) || (insertion_score(points, cycle, best) == insertion_score(points, cycle, j)
                && best <= j),
    decreases m,
{
    if m == 1 {
        0
    } else {
        let earlier = lemma_best_among_first(points, cycle, (m - 1) as nat);
        if insertion_score(points, cycle, m - 1) < insertion_score(points, cycle, earlier) {
            m - 1
        } else {
            earlier
        }
    }
}

proof fn lemma_grow(points: Seq<Point>, cycle: Seq<usize>)
    requires
        0 < cycle.len() < points.len() <= usize::MAX,
        in_range(cycle, points.len()),
        distinct(cycle),
    ensures
        grow(points, cycle).len() == cycle.len() + 1,
        in_range(grow(points, cycle), points.len()),
        distinct(grow(points, cycle)),
{
    let best = lemma_best_among_first(points, cycle, cycle.len());
    assert(is_best_insertion(points, cycle, best));
    lemma_best_insertion_unique(points, cycle, best);
    lemma_some_index_free(points, cycle);
    let c = lemma_closest_exists(points, edge_probe(points, cycle, best), cycle);
    lemma_insert_keeps_distinct(cycle, points.len(), best, c);
}

proof fn lemma_insertion_cycle(points: Seq<Point>, rounds: nat)
    requires
        rounds + 3 <= points.len() <= usize::MAX,
    ensures
        insertion_cycle(points, rounds).len() == rounds + 3,
        in_range(insertion_cycle(points, rounds), points.len()),
        distinct(insertion_cycle(points, rounds)),
    decreases rounds,
{
    if rounds == 0 {
        lemma_seed_cycle(points, 3);
    } else {
        lemma_insertion_cycle(points, (rounds - 1) as nat);
        lemma_grow(points, insertion_cycle(points, (rounds - 1) as nat));
    }
}

/// The order that the insertion heuristic builds is a tour.
pub proof fn lemma_insertion_order_is_tour(points: Seq<Point>)
    requires
        points.len() <= usize::MAX,
    ensures
        is_tour(insertion_order(points), points.len()),
{
    if points.len() <= 3 {
        lemma_identity_is_tour(points.len());
    } else {
        lemma_insertion_cycle(points, (points.len() - 3) as nat);
    }
}

fn probe_edge(points: &Vec<Point>, cycle: &Vec<usize>, i: usize) -> (found: (usize, i64))
    requires
        in_range(cycle@, points.len() as nat),
        i < cycle.len() < points.len(),
    ensures
        insertion_candidate(points@, cycle@, i as int) == Some(found.0),
        found.0 < points.len(),
        !cycle@.contains(found.0),
        found.1 == insertion_score(points@, cycle@, i as int),
{
    let first = cycle[if i > 0 {
        i - 1
    } else {
        cycle.len() - 1
    }];
    let second = cycle[i];
    let probe = points[first].midpoint(&points[second]);
    proof {
        lemma_some_index_free(points@, cycle@);
    }
    match closest_unvisited(points, &probe, cycle) {
        Some(c) => {
            let near = probe.distance(&points[c]);
            let far = probe.distance(&points[first]);
            (c, near as i64 - far as i64)
        },
        // Not reached: the cycle is shorter than the instance, so a point is free.
        None => (0, 0),
    }
}

/// Builds a tour by insertion.
///
/// An instance of up to three points is returned in index order. Otherwise the
/// three points nearest to the centroid make the first cycle, and every round
/// inserts one more point: each edge of the cycle proposes the free point
/// nearest to its midpoint, and the proposal with the lowest score is placed in
/// its edge. Of equal scores the first edge wins.
pub fn triangle_tour(points: &Vec<Point>) -> (tour: Vec<usize>)
    ensures
        tour@ == insertion_order(points@),
        is_tour(tour@, points.len() as nat),
{
    let n = points.len();
    if n <= 3 {
        return identity_tour(points);
    }
    let center = centroid(points);
    let mut cycle: Vec<usize> = Vec::new();
    let mut seeds: usize = 0;
    while seeds < 3
        invariant
            n == points.len(),
            n > 3,
            center == centroid_of(points@),
            0 <= seeds <= 3,
            cycle.len() == seeds,
            cycle@ == seed_cycle(points@, seeds as nat),
            in_range(cycle@, n as nat),
            distinct(cycle@),
        decreases 3 - seeds,
    {
        proof {
            lemma_some_index_free(points@, cycle@);
        }
        let ghost before = cycle@;
        match closest_unvisited(points, &center, &cycle) {
            Some(c) => {
                cycle.push(c);
                proof {
                    assert(cycle@ =~= before.insert(before.len() as int, c));
                    lemma_insert_keeps_distinct(before, n as nat, before.len() as int, c);
                }
            },
            // Not reached: fewer than three points are taken, and there are more.
            None => {},
        }
        seeds = seeds + 1;
    }
    let mut round: usize = 0;
    while round < n - 3
        invariant
            n == points.len(),
            n > 3,
            0 <= round <= n - 3,
            cycle.len() == round + 3,
            cycle@ == insertion_cycle(points@, round as nat),
            in_range(cycle@, n as nat),
            distinct(cycle@),
        decreases n - 3 - round,
    {
        let first = probe_edge(points, &cycle, 0);
        let mut best_at: usize = 0;
        let mut best_city: usize = first.0;
        let mut best_score: i64 = first.1;
        let mut i: usize = 1;
        while i < cycle.len()
            invariant
                n == points.len(),
                cycle.len() < n,
                in_range(cycle@, n as nat),
                1 <= i <= cycle.len(),
                best_at < i,
                insertion_candidate(points@, cycle@, best_at as int) == Some(best_city),
                best_city < n,
                !cycle@.contains(best_city),
                best_score == insertion_score(points@, cycle@, best_at as int),
                forall|j: int|
                    0 <= j < i ==> best_score < #[trigger] insertion_score(points@, cycle@, j) || (
                    best_score == insertion_score(points@, cycle@, j) && best_at <= j),
            decreases cycle.len() - i,
        {
            let found = probe_edge(points, &cycle, i);
            if found.1 < best_score {
                best_at = i;
                best_city = found.0;
                best_score = found.1;
            }
            i = i + 1;
        }
        proof {
            assert(is_best_insertion(points@, cycle@, best_at as int));
            lemma_best_insertion_unique(points@, cycle@, best_at as int);
            lemma_insert_keeps_distinct(cycle@, n as nat, best_at as int, best_city);
        }
        cycle.insert(best_at, best_city);
        round = round + 1;
    }
    cycle
}

} // verus!
