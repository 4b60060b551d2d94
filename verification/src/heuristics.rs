//! The quick constructors: the identity order, the radial order, and the
//! greedy nearest-neighbour tour.

use vstd::prelude::*;
use crate::geometry::Point;
use crate::nearest::closest_unvisited;
use crate::nearest::is_closest_unvisited;
use crate::nearest::lemma_closest_unique;
use crate::nearest::lemma_some_index_free;
use crate::ranking::is_ranking;
use crate::ranking::lemma_ranking_unique;
use crate::ranking::rank_by_key;
use crate::ranking::ranks_before;
use crate::tour::distinct;
use crate::tour::identity_order;
use crate::tour::in_range;
use crate::tour::is_tour;
use crate::tour::lemma_short_order_misses_index;

verus! {

/// Returns the tour `0, 1, .., n - 1` of an instance of `n` points: the
/// baseline that the other constructors are measured against.
pub fn identity_tour(points: &Vec<Point>) -> (tour: Vec<usize>)
    ensures
        tour@ == identity_order(points.len() as nat),
        is_tour(tour@, points.len() as nat),
{
    let n = points.len();
    let mut tour: Vec<usize> = Vec::new();
    let mut i: usize = 0;
    while i < n
        invariant
            0 <= i <= n,
            tour.len() == i,
            forall|j: int| 0 <= j < i ==> tour[j] == j,
        decreases n - i,
    {
        tour.push(i);
        i = i + 1;
    }
    assert(tour@ =~= identity_order(n as nat));
    tour
}

/// No index is marked.
pub open spec fn none_marked(n: nat) -> Seq<bool> {
    Seq::new(n, |i: int| false)
}

/// `tour` lists every index of `angle_keys` by ascending key, indices with
/// equal keys in index order.
pub open spec fn is_radial_tour(angle_keys: Seq<u64>, tour: Seq<usize>) -> bool {
    is_ranking(angle_keys, none_marked(angle_keys.len()), tour)
}

/// A radial order is a tour.
pub proof fn lemma_radial_tour_is_tour(angle_keys: Seq<u64>, tour: Seq<usize>)
    requires
        is_radial_tour(angle_keys, tour),
        angle_keys.len() <= usize::MAX,
    ensures
        is_tour(tour, angle_keys.len()),
{
    let n = angle_keys.len();
    assert(distinct(tour)) by {
        assert forall|i: int, j: int| 0 <= i < j < tour.len() implies tour[i] != tour[j] by {
            assert(ranks_before(angle_keys, tour[i], tour[j]));
        }
    }
    assert(in_range(tour, n));
    crate::tour::lemma_distinct_in_range(tour, n);
    if tour.len() < n {
        let missing = lemma_short_order_misses_index(tour, n);
        assert(!none_marked(n)[missing as int]);
    }
}

/// Builds the radial tour from the angle key of each point.
///
/// The key of a point is the angle of its offset from the centre of the
/// instance, on whatever fixed scale the caller rounds it to. The tour visits
/// the points by ascending key. Two points whose angles round to the same key
/// are visited in index order.
pub fn radial_tour(angle_keys: &Vec<u64>) -> (tour: Vec<usize>)
    ensures
        is_radial_tour(angle_keys@, tour@),
        is_tour(tour@, angle_keys.len() as nat),
{
    let n = angle_keys.len();
    let mut skip: Vec<bool> = Vec::new();
    let mut i: usize = 0;
    while i < n
        invariant
            0 <= i <= n,
            skip.len() == i,
            forall|j: int| 0 <= j < i ==> !skip[j],
        decreases n - i,
    {
        skip.push(false);
        i = i + 1;
    }
    assert(skip@ =~= none_marked(n as nat));
    let tour = rank_by_key(angle_keys, &skip);
    proof {
        lemma_radial_tour_is_tour(angle_keys@, tour@);
    }
    tour
}

/// The angle keys admit one radial tour only.
pub proof fn lemma_radial_tour_unique(angle_keys: Seq<u64>, a: Seq<usize>, b: Seq<usize>)
    requires
        is_radial_tour(angle_keys, a),
        is_radial_tour(angle_keys, b),
    ensures
        a == b,
{
    lemma_ranking_unique(angle_keys, none_marked(angle_keys.len()), a, b);
}

/// `tour` starts at index 0, and each later stop is the point closest to the
/// stop before it among those not yet on the tour.
pub open spec fn is_nearest_neighbour_tour(points: Seq<Point>, tour: Seq<usize>) -> bool {
    &&& tour.len() == points.len()
    &&& points.len() > 0 ==> tour[0] == 0
    &&& forall|i: int|
        1 <= i < tour.len() ==> is_closest_unvisited(
            points,
            points[tour[i - 1] as int],
            tour.take(i),
            #[trigger] tour[i],
        )
}

/// A nearest-neighbour tour is a tour.
pub proof fn lemma_nearest_neighbour_tour_is_tour(points: Seq<Point>, tour: Seq<usize>)
    requires
        is_nearest_neighbour_tour(points, tour),
    ensures
        is_tour(tour, points.len()),
{
    assert forall|i: int| 0 <= i < tour.len() implies #[trigger] tour[i] < points.len() by {
        if i > 0 {
            assert(is_closest_unvisited(points, points[tour[i - 1] as int], tour.take(i), tour[i]));
        }
    }
    assert forall|i: int, j: int| 0 <= i < j < tour.len() implies tour[i] != tour[j] by {
        assert(is_closest_unvisited(points, points[tour[j - 1] as int], tour.take(j), tour[j]));
        assert(tour.take(j)[i] == tour[i]);
    }
}

/// Builds a tour greedily: from index 0, always on to the nearest point not
/// yet visited, the one with the smallest index if several are as near.
pub fn nearest_neighbour_tour(points: &Vec<Point>) -> (tour: Vec<usize>)
    ensures
        is_nearest_neighbour_tour(points@, tour@),
        is_tour(tour@, points.len() as nat),
{
    let n = points.len();
    let mut tour: Vec<usize> = Vec::new();
    if n == 0 {
        return tour;
    }
    tour.push(0);
    while tour.len() < n
        invariant
            n == points.len(),
            0 < tour.len() <= n,
            tour[0] == 0,
            in_range(tour@, n as nat),
            distinct(tour@),
            forall|i: int|
                1 <= i < tour.len() ==> is_closest_unvisited(
                    points@,
                    points@[tour[i - 1] as int],
                    tour@.take(i),
                    #[trigger] tour[i],
                ),
        decreases n - tour.len(),
    {
        let last = tour[tour.len() - 1];
        let ghost before = tour@;
        proof {
            lemma_some_index_free(points@, tour@);
        }
        match closest_unvisited(points, &points[last], &tour) {
            Some(next) => {
                tour.push(next);
                proof {
                    assert forall|i: int| 1 <= i < tour.len() implies is_closest_unvisited(
                        points@,
                        points@[tour[i - 1] as int],
                        tour@.take(i),
                        #[trigger] tour[i],
                    ) by {
                        if i < before.len() {
                            assert(tour@.take(i) =~= before.take(i));
                            assert(tour[i] == before[i]);
                            assert(tour[i - 1] == before[i - 1]);
                        } else {
                            assert(tour@.take(i) =~= before);
                        }
                    }
                    assert forall|i: int, j: int| 0 <= i < j < tour.len() implies tour[i]
                        != tour[j] by {
                        if j == before.len() {
                            assert(before.contains(before[i]));
                        }
                    }
                }
            },
            None => {
                // Not reached: a tour shorter than the instance leaves a point free.
                return tour;
            },
        }
    }
    tour
}

proof fn lemma_nearest_neighbour_agree(points: Seq<Point>, a: Seq<usize>, b: Seq<usize>, k: nat)
    requires
        is_nearest_neighbour_tour(points, a),
        is_nearest_neighbour_tour(points, b),
        k <= a.len(),
    ensures
        a.take(k as int) == b.take(k as int),
    decreases k,
{
    if k == 0 {
        assert(a.take(0) =~= b.take(0));
    } else {
        let i = (k - 1) as int;
        lemma_nearest_neighbour_agree(points, a, b, (k - 1) as nat);
        if i > 0 {
            assert(a.take(i)[i - 1] == b.take(i)[i - 1]);
            lemma_closest_unique(points, points[a[i - 1] as int], a.take(i), a[i], b[i]);
        }
        assert(a.take(k as int) =~= a.take(i).push(a[i]));
        assert(b.take(k as int) =~= b.take(i).push(b[i]));
    }
}

/// An instance has one nearest-neighbour tour only.
pub proof fn lemma_nearest_neighbour_tour_unique(points: Seq<Point>, a: Seq<usize>, b: Seq<usize>)
    requires
        is_nearest_neighbour_tour(points, a),
        is_nearest_neighbour_tour(points, b),
    ensures
        a == b,
{
    lemma_nearest_neighbour_agree(points, a, b, a.len());
    assert(a.take(a.len() as int) =~= a);
    assert(b.take(b.len() as int) =~= b);
}

} // verus!
