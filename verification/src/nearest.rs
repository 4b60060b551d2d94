//! The search for the nearest point that is still free.

use vstd::prelude::*;
use crate::geometry::Point;
use crate::geometry::dist;
use crate::tour::lemma_short_order_misses_index;

verus! {

/// Point `k` is at least as good a choice as point `j`: it is nearer to
/// `target`, or as near and not the larger index.
pub open spec fn nearer_or_first(points: Seq<Point>, target: Point, k: usize, j: usize) -> bool {
    dist(points[k as int], target) < dist(points[j as int], target) || (dist(
        points[k as int],
        target,
    ) == dist(points[j as int], target) && k <= j)
}

/// Every index of the instance is in `excluded`.
pub open spec fn all_excluded(points: Seq<Point>, excluded: Seq<usize>) -> bool {
    forall|j: usize| j < points.len() ==> #[trigger] excluded.contains(j)
}

/// `k` is the index of the point nearest to `target` among those not in
/// `excluded`, and the smallest such index if several are as near.
pub open spec fn is_closest_unvisited(
    points: Seq<Point>,
    target: Point,
    excluded: Seq<usize>,
    k: usize,
) -> bool {
    &&& k < points.len()
    &&& !excluded.contains(k)
    &&& forall|j: usize|
        j < points.len() && !(#[trigger] excluded.contains(j)) ==> nearer_or_first(
            points,
            target,
            k,
            j,
        )
}

/// The index that `closest_unvisited` returns.
pub open spec fn closest_of(points: Seq<Point>, target: Point, excluded: Seq<usize>) -> Option<
    usize,
> {
    if all_excluded(points, excluded) {
        None
    } else {
        Some(choose|k: usize| is_closest_unvisited(points, target, excluded, k))
    }
}

/// At most one index is the closest.
pub proof fn lemma_closest_unique(
    points: Seq<Point>,
    target: Point,
    excluded: Seq<usize>,
    k: usize,
    m: usize,
)
    requires
        is_closest_unvisited(points, target, excluded, k),
        is_closest_unvisited(points, target, excluded, m),
    ensures
        k == m,
{
    assert(nearer_or_first(points, target, k, m));
    assert(nearer_or_first(points, target, m, k));
}

/// A list shorter than the instance leaves some index of it out.
pub proof fn lemma_some_index_free(points: Seq<Point>, excluded: Seq<usize>)
    requires
        excluded.len() < points.len() <= usize::MAX,
    ensures
        !all_excluded(points, excluded),
{
    let missing = lemma_short_order_misses_index(excluded, points.len());
}

proof fn lemma_closest_among_first(
    points: Seq<Point>,
    target: Point,
    excluded: Seq<usize>,
    m: nat,
) -> (found: Option<usize>)
    requires
        m <= points.len() <= usize::MAX,
    ensures
        found is None ==> forall|j: usize| j < m ==> #[trigger] excluded.contains(j),
        found matches Some(k) ==> {
            &&& k < m
            &&& !excluded.contains(k)
            &&& forall|j: usize|
                j < m && !(#[trigger] excluded.contains(j)) ==> nearer_or_first(
                    points,
                    target,
                    k,
                    j,
                )
        },
    decreases m,
{
    if m == 0 {
        None
    } else {
        let last = (m - 1) as usize;
        let earlier = lemma_closest_among_first(points, target, excluded, (m - 1) as nat);
        if excluded.contains(last) {
            earlier
        } else {
            match earlier {
                None => Some(last),
                Some(k) => {
                    if dist(points[last as int], target) < dist(points[k as int], target) {
                        Some(last)
                    } else {
                        Some(k)
                    }
                },
            }
        }
    }
}

/// Unless every point is excluded, one of the free points is the closest.
pub proof fn lemma_closest_exists(points: Seq<Point>, target: Point, excluded: Seq<usize>) -> (k:
    usize)
    requires
        points.len() <= usize::MAX,
        !all_excluded(points, excluded),
    ensures
        closest_of(points, target, excluded) == Some(k),
        is_closest_unvisited(points, target, excluded, k),
{
    let found = lemma_closest_among_first(points, target, excluded, points.len());
    let k = found.unwrap();
    assert(is_closest_unvisited(points, target, excluded, k));
    let c = choose|c: usize| is_closest_unvisited(points, target, excluded, c);
    lemma_closest_unique(points, target, excluded, k, c);
    k
}

fn contains_index(list: &Vec<usize>, v: usize) -> (found: bool)
    ensures
        found == list@.contains(v),
{
    let mut i: usize = 0;
    while i < list.len()
        invariant
            0 <= i <= list.len(),
            forall|j: int| 0 <= j < i ==> list[j] != v,
        decreases list.len() - i,
    {
        if list[i] == v {
            return true;
        }
        i = i + 1;
    }
    false
}

/// Finds the point nearest to `target` among those whose index is not in
/// `excluded`. Of several points at the same distance the one with the
/// smallest index is returned. The result is `None` exactly when every point
/// is excluded.
pub fn closest_unvisited(points: &Vec<Point>, target: &Point, excluded: &Vec<usize>) -> (found:
    Option<usize>)
    ensures
        found == closest_of(points@, *target, excluded@),
        found is None <==> all_excluded(points@, excluded@),
        found matches Some(k) ==> is_closest_unvisited(points@, *target, excluded@, k),
{
    let mut found: Option<usize> = None;
    let mut found_dist: u64 = 0;
    let mut i: usize = 0;
    while i < points.len()
        invariant
            0 <= i <= points.len(),
            found is None ==> forall|j: usize| j < i ==> #[trigger] excluded@.contains(j),
            found matches Some(k) ==> {
                &&& k < i
                &&& !excluded@.contains(k)
                &&& found_dist == dist(points@[k as int], *target)
                &&& forall|j: usize|
                    j < i && !(#[trigger] excluded@.contains(j)) ==> nearer_or_first(
                        points@,
                        *target,
                        k,
                        j,
                    )
            },
        decreases points.len() - i,
    {
        let d = points[i].distance(target);
        if !contains_index(excluded, i) {
            match found {
                None => {
                    found = Some(i);
                    found_dist = d;
                },
                Some(_) => {
                    if d < found_dist {
                        found = Some(i);
                        found_dist = d;
                    }
                },
            }
        }
        i = i + 1;
    }
    proof {
        match found {
            Some(k) => {
                assert(is_closest_unvisited(points@, *target, excluded@, k));
                assert(!all_excluded(points@, excluded@));
                let c = choose|c: usize| is_closest_unvisited(points@, *target, excluded@, c);
                lemma_closest_unique(points@, *target, excluded@, k, c);
            },
            None => {},
        }
    }
    found
}

} // verus!
