//! Exact search by exhaustive enumeration.
//!
//! A tour is a cycle, so it has the same cost started anywhere and walked in
//! either direction. The search therefore costs one tour of each such family
//! only: the one that starts at index 0 and whose second stop is a smaller
//! index than its last. The stops between them run through every permutation
//! of the indices that are left.

use vstd::prelude::*;
use crate::geometry::Point;
use crate::geometry::max_dist;
use crate::heuristics::identity_tour;
use crate::permutations::is_permutation_listing;
use crate::permutations::lemma_lex_before_asymmetric;
use crate::permutations::lex_before;
use crate::permutations::next_permutation;
use crate::permutations::pending;
use crate::permutations::permutations_of_range;
use crate::tour::cycle_cost;
use crate::tour::identity_order;
use crate::tour::is_optimal_tour;
use crate::tour::is_tour;
use crate::tour::lemma_cycle_cost_bound;
use crate::tour::lemma_cycle_cost_reverse;
use crate::tour::lemma_cycle_cost_rotate;
use crate::tour::lemma_identity_is_tour;
use crate::tour::lemma_reverse_is_tour;
use crate::tour::lemma_rotate_is_tour;
use crate::tour::lemma_tour_from_zero;
use crate::tour::rotate;
use crate::tour::tour_cost;

verus! {

/// The index that stands for `x` once `start` and `end` are taken out of the
/// indices from 1 up: `x` counts the indices that are left, from 0.
pub open spec fn lift(x: usize, start: usize, end: usize) -> int {
    x + 1 + (if x + 1 >= start {
        1int
    } else {
        0int
    }) + (if x + 2 >= end {
        1int
    } else {
        0int
    })
}

/// The inverse of `lift`: the place of index `v` among the indices from 1 up
/// other than `start` and `end`.
pub open spec fn lower(v: usize, start: usize, end: usize) -> int {
    v - 1 - (if v > start {
        1int
    } else {
        0int
    }) - (if v > end {
        1int
    } else {
        0int
    })
}

/// The name of a candidate: the two neighbours of index 0, and the order of
/// the stops between them as a permutation of the indices that are left.
pub struct Choice {
    pub start: usize,
    pub end: usize,
    pub perm: Seq<usize>,
}

impl Choice {
    /// The choice names a candidate of an instance of `n` points.
    pub open spec fn valid(self, n: nat) -> bool {
        &&& 1 <= self.start < self.end < n
        &&& is_tour(self.perm, (n - 3) as nat)
    }

    /// The candidate: the tour `0, start, .., end` whose inner stops are the
    /// indices that `perm` stands for.
    pub open spec fn tour(self) -> Seq<usize> {
        seq![0usize, self.start] + Seq::new(
            self.perm.len(),
            |i: int| lift(self.perm[i], self.start, self.end) as usize,
        ) + seq![self.end]
    }

    /// The search costs this candidate no later than `other`: candidates are
    /// taken by ascending `start`, then by ascending `end`, then in the
    /// lexicographic order of their permutations.
    pub open spec fn no_later_than(self, other: Choice) -> bool {
        self.start < other.start || (self.start == other.start && (self.end < other.end || (
        self.end == other.end && (self.perm == other.perm || lex_before(self.perm, other.perm)))))
    }
}

/// The candidate of `choice` costs no more than any other, and is the first
/// that the search comes to among those that cost as little.
pub open spec fn is_first_cheapest(points: Seq<Point>, choice: Choice) -> bool {
    &&& choice.valid(points.len())
    &&& forall|other: Choice| #[trigger]
        other.valid(points.len()) ==> cycle_cost(points, choice.tour()) < cycle_cost(
            points,
            other.tour(),
        ) || (cycle_cost(points, choice.tour()) == cycle_cost(points, other.tour())
            && choice.no_later_than(other))
}

/// What the exhaustive search returns: the identity order for up to three
/// points, and beyond that the first cheapest candidate.
pub open spec fn is_brute_force_tour(points: Seq<Point>, tour: Seq<usize>) -> bool {
    if points.len() <= 3 {
        tour == identity_order(points.len())
    } else {
        exists|choice: Choice| is_first_cheapest(points, choice) && tour == #[trigger] choice.tour()
    }
}

/// A candidate is a tour.
pub proof fn lemma_candidate_is_tour(n: nat, choice: Choice)
    requires
        choice.valid(n),
        n <= usize::MAX,
    ensures
        is_tour(choice.tour(), n),
        choice.tour()[0] == 0,
        choice.tour()[1] == choice.start,
        choice.tour()[n - 1] == choice.end,
        forall|i: int|
            0 <= i < n - 3 ==> choice.tour()[i + 2] == lift(
                #[trigger] choice.perm[i],
                choice.start,
                choice.end,
            ),
{
    let c = choice.tour();
    let perm = choice.perm;
    assert(c.len() == n);
    assert forall|i: int| 0 <= i < n - 3 implies c[i + 2] == lift(
        #[trigger] perm[i],
        choice.start,
        choice.end,
    ) by {
        assert(perm[i] < n - 3);
    }
    assert forall|i: int| 0 <= i < c.len() implies #[trigger] c[i] < n by {
        if 2 <= i < n - 1 {
            assert(c[(i - 2) + 2] == lift(perm[i - 2], choice.start, choice.end));
        }
    }
    assert forall|i: int, j: int| 0 <= i < j < c.len() implies c[i] != c[j] by {
        if 2 <= i < n - 1 {
            assert(c[(i - 2) + 2] == lift(perm[i - 2], choice.start, choice.end));
        }
        if 2 <= j < n - 1 {
            assert(c[(j - 2) + 2] == lift(perm[j - 2], choice.start, choice.end));
        }
        if 2 <= i && j < n - 1 {
            assert(perm[i - 2] != perm[j - 2]);
        }
    }
}

proof fn lemma_lower_in_range(v: usize, start: usize, end: usize, n: nat)
    requires
        1 <= start < end < n,
        0 < v < n,
        v != start,
        v != end,
    ensures
        0 <= lower(v, start, end) < n - 3,
        lift(lower(v, start, end) as usize, start, end) == v,
{
}

proof fn lemma_lower_injective(v: usize, w: usize, start: usize, end: usize, n: nat)
    requires
        1 <= start < end < n,
        0 < v < n,
        0 < w < n,
        v != start,
        v != end,
        w != start,
        w != end,
        v != w,
    ensures
        lower(v, start, end) != lower(w, start, end),
{
}

proof fn lemma_zero_first_smaller_next(points: Seq<Point>, tour: Seq<usize>) -> (c: Seq<usize>)
    requires
        3 <= points.len() <= usize::MAX,
        is_tour(tour, points.len()),
    ensures
        is_tour(c, points.len()),
        c[0] == 0,
        c[1] < c[points.len() - 1],
        cycle_cost(points, c) == cycle_cost(points, tour),
{
    let n = points.len();
    let from_zero = lemma_tour_from_zero(points, tour);
    assert(from_zero[1] != from_zero[n - 1]);
    if from_zero[1] < from_zero[n - 1] {
        from_zero
    } else {
        let back = from_zero.reverse();
        lemma_reverse_is_tour(from_zero, n);
        lemma_cycle_cost_reverse(points, from_zero);
        lemma_rotate_is_tour(back, n, n - 1);
        lemma_cycle_cost_rotate(points, back, n - 1);
        let c = rotate(back, n - 1);
        assert(c[0] == back[n - 1]);
        assert(c[1] == back[0]);
        assert(c[n - 1] == back[n - 2]);
        c
    }
}

proof fn lemma_is_candidate(n: nat, c: Seq<usize>) -> (choice: Choice)
    requires
        3 <= n <= usize::MAX,
        is_tour(c, n),
        c[0] == 0,
        c[1] < c[n - 1],
    ensures
        choice.valid(n),
        choice.tour() == c,
{
    let s = c[1];
    let e = c[n - 1];
    assert(c[0] != c[1]);
    let mid = c.subrange(2, n - 1);
    let p = Seq::new((n - 3) as nat, |i: int| lower(mid[i], s, e) as usize);
    assert forall|i: int| 0 <= i < mid.len() implies 0 < (#[trigger] mid[i]) < n && mid[i] != s
        && mid[i] != e by {
        assert(mid[i] == c[i + 2]);
        assert(c[0] != c[i + 2]);
        assert(c[1] != c[i + 2]);
        assert(c[i + 2] != c[n - 1]);
    }
    assert forall|i: int| 0 <= i < p.len() implies #[trigger] p[i] < n - 3 by {
        lemma_lower_in_range(mid[i], s, e, n);
    }
    assert forall|i: int, j: int| 0 <= i < j < p.len() implies p[i] != p[j] by {
        assert(mid[i] == c[i + 2] && mid[j] == c[j + 2]);
        assert(c[i + 2] != c[j + 2]);
        lemma_lower_in_range(mid[i], s, e, n);
        lemma_lower_in_range(mid[j], s, e, n);
        lemma_lower_injective(mid[i], mid[j], s, e, n);
    }
    assert(is_tour(p, (n - 3) as nat));
    let choice = Choice { start: s, end: e, perm: p };
    lemma_candidate_is_tour(n, choice);
    let built = choice.tour();
    assert forall|i: int| 0 <= i < n implies built[i] == c[i] by {
        if 2 <= i < n - 1 {
            assert(built[(i - 2) + 2] == lift(p[i - 2], s, e));
            assert(mid[i - 2] == c[i]);
            lemma_lower_in_range(mid[i - 2], s, e, n);
        }
    }
    assert(built =~= c);
    choice
}

/// Every tour of three or more points costs what some candidate costs: the
/// same cycle, started at index 0 and walked in the direction in which the
/// second stop is the smaller neighbour of index 0.
pub proof fn lemma_tour_has_candidate(points: Seq<Point>, tour: Seq<usize>) -> (choice: Choice)
    requires
        3 <= points.len() <= usize::MAX,
        is_tour(tour, points.len()),
    ensures
        choice.valid(points.len()),
        cycle_cost(points, choice.tour()) == cycle_cost(points, tour),
{
    let c = lemma_zero_first_smaller_next(points, tour);
    lemma_is_candidate(points.len(), c)
}

/// In an instance of up to three points every tour costs the same.
pub proof fn lemma_small_instance(points: Seq<Point>, tour: Seq<usize>)
    requires
        points.len() <= 3,
        is_tour(tour, points.len()),
    ensures
        cycle_cost(points, tour) == cycle_cost(points, identity_order(points.len())),
{
    let n = points.len();
    let id = identity_order(n);
    lemma_identity_is_tour(n);
    if n == 0 {
        assert(tour =~= id);
    } else if n <= 2 {
        let from_zero = lemma_tour_from_zero(points, tour);
        if n == 2 {
            assert(from_zero[0] != from_zero[1]);
        }
        assert(from_zero =~= id);
    } else {
        let choice = lemma_tour_has_candidate(points, tour);
        lemma_candidate_is_tour(n, choice);
        assert(choice.tour() =~= id);
    }
}

/// What the exhaustive search returns is an optimal tour.
pub proof fn lemma_brute_force_tour_is_optimal(points: Seq<Point>, tour: Seq<usize>)
    requires
        is_brute_force_tour(points, tour),
        points.len() <= usize::MAX,
    ensures
        is_optimal_tour(points, tour),
{
    let n = points.len();
    if n <= 3 {
        lemma_identity_is_tour(n);
        assert forall|other: Seq<usize>| #[trigger] is_tour(other, n) implies cycle_cost(
            points,
            tour,
        ) <= cycle_cost(points, other) by {
            lemma_small_instance(points, other);
        }
    } else {
        let choice = choose|choice: Choice|
            is_first_cheapest(points, choice) && tour == #[trigger] choice.tour();
        lemma_candidate_is_tour(n, choice);
        assert forall|other: Seq<usize>| #[trigger] is_tour(other, n) implies cycle_cost(
            points,
            tour,
        ) <= cycle_cost(points, other) by {
            let same_cost = lemma_tour_has_candidate(points, other);
            assert(same_cost.valid(n));
        }
    }
}

/// An instance has one result of the exhaustive search only.
pub proof fn lemma_brute_force_tour_unique(points: Seq<Point>, a: Seq<usize>, b: Seq<usize>)
    requires
        is_brute_force_tour(points, a),
        is_brute_force_tour(points, b),
    ensures
        a == b,
{
    let n = points.len();
    if n > 3 {
        let first = choose|choice: Choice|
            is_first_cheapest(points, choice) && a == #[trigger] choice.tour();
        let second = choose|choice: Choice|
            is_first_cheapest(points, choice) && b == #[trigger] choice.tour();
        assert(first.valid(n));
        assert(second.valid(n));
        assert(first.no_later_than(second));
        assert(second.no_later_than(first));
        if lex_before(first.perm, second.perm) {
            lemma_lex_before_asymmetric(first.perm, second.perm);
        }
    }
}

/// How far the search has come: it stands at the neighbours `start` and
/// `end`, and has taken the first `count` permutations of `listing` there.
struct Progress {
    start: usize,
    end: usize,
    listing: Seq<Seq<usize>>,
    count: int,
}

/// The search at the pair `start`, `end`, before its first permutation.
spec fn at_pair(start: usize, end: usize) -> Progress {
    Progress { start, end, listing: Seq::empty(), count: 0 }
}

/// The search at the pair `start`, `end`, `count` permutations into
/// `listing`.
spec fn within(start: usize, end: usize, listing: Seq<Seq<usize>>, count: int) -> Progress {
    Progress { start, end, listing, count }
}

impl Progress {
    /// The candidate of `choice` has been costed.
    spec fn tried(self, choice: Choice) -> bool {
        choice.start < self.start || (choice.start == self.start && (choice.end < self.end || (
        choice.end == self.end && exists|i: int|
            0 <= i < self.count && #[trigger] self.listing[i] == choice.perm)))
    }
}

/// What the search knows at any moment: nothing was costed yet, or the best
/// so far is the first cheapest of the candidates costed.
spec fn search_invariant(
    points: Seq<Point>,
    progress: Progress,
    best: Seq<usize>,
    best_cost: u128,
    chosen: Choice,
) -> bool {
    let n = points.len();
    if best_cost == u128::MAX {
        forall|other: Choice| #[trigger] other.valid(n) ==> !progress.tried(other)
    } else {
        &&& chosen.valid(n)
        &&& progress.tried(chosen)
        &&& best == chosen.tour()
        &&& best_cost == cycle_cost(points, best)
        &&& forall|other: Choice| #[trigger]
            other.valid(n) && progress.tried(other) ==> best_cost < cycle_cost(
                points,
                other.tour(),
            ) || (best_cost == cycle_cost(points, other.tour()) && chosen.no_later_than(other))
    }
}

/// The candidate that the search costs next.
spec fn next_choice(progress: Progress) -> Choice {
    Choice { start: progress.start, end: progress.end, perm: progress.listing[progress.count] }
}

/// The search after it has costed the next candidate.
spec fn advanced(progress: Progress) -> Progress {
    Progress { count: progress.count + 1, ..progress }
}

proof fn lemma_search_step(
    points: Seq<Point>,
    progress: Progress,
    best: Seq<usize>,
    best_cost: u128,
    chosen: Choice,
)
    requires
        3 < points.len() <= usize::MAX,
        1 <= progress.start < progress.end < points.len(),
        is_permutation_listing(progress.listing, (points.len() - 3) as nat),
        0 <= progress.count < progress.listing.len(),
        search_invariant(points, progress, best, best_cost, chosen),
    ensures
        next_choice(progress).valid(points.len()),
        cycle_cost(points, next_choice(progress).tour()) < u128::MAX,
        cycle_cost(points, next_choice(progress).tour()) < best_cost ==> search_invariant(
            points,
            advanced(progress),
            next_choice(progress).tour(),
            cycle_cost(points, next_choice(progress).tour()) as u128,
            next_choice(progress),
        ),
        cycle_cost(points, next_choice(progress).tour()) >= best_cost ==> search_invariant(
            points,
            advanced(progress),
            best,
            best_cost,
            chosen,
        ),
{
    let n = points.len();
    let next = next_choice(progress);
    let after = advanced(progress);
    let cost = cycle_cost(points, next.tour());
    assert(is_tour(progress.listing[progress.count], (n - 3) as nat));
    lemma_candidate_is_tour(n, next);
    lemma_cycle_cost_bound(points, next.tour());
    assert(n * max_dist() <= 0x1_0000_0000_0000_0000 * 0x2_0000_0000) by (nonlinear_arith)
        requires
            0 <= n <= 0x1_0000_0000_0000_0000,
            max_dist() == 0x2_0000_0000,
    ;
    assert(after.listing[progress.count] == next.perm);
    assert(after.tried(next));
    if cost < best_cost {
        assert forall|other: Choice| #[trigger] other.valid(n) && after.tried(other) implies cost
            < cycle_cost(points, other.tour()) || (cost == cycle_cost(points, other.tour())
            && next.no_later_than(other)) by {
            if !progress.tried(other) {
                let i = choose|i: int|
                    0 <= i < after.count && #[trigger] after.listing[i] == other.perm;
                assert(i == progress.count);
                assert(other == next);
            }
        }
    } else {
        assert(after.tried(chosen)) by {
            if chosen.start == progress.start && chosen.end == progress.end {
                let i = choose|i: int|
                    0 <= i < progress.count && #[trigger] progress.listing[i] == chosen.perm;
                assert(0 <= i < after.count && after.listing[i] == chosen.perm);
            }
        }
        assert forall|other: Choice| #[trigger]
            other.valid(n) && after.tried(other) implies best_cost < cycle_cost(
            points,
            other.tour(),
        ) || (best_cost == cycle_cost(points, other.tour()) && chosen.no_later_than(other)) by {
            if !progress.tried(other) {
                let i = choose|i: int|
                    0 <= i < after.count && #[trigger] after.listing[i] == other.perm;
                assert(i == progress.count);
                assert(other == next);
                if chosen.start == progress.start && chosen.end == progress.end {
                    let j = choose|j: int|
                        0 <= j < progress.count && #[trigger] progress.listing[j] == chosen.perm;
                    assert(lex_before(progress.listing[j], progress.listing[progress.count]));
                }
            }
        }
    }
}

proof fn lemma_search_enters_pair(
    points: Seq<Point>,
    start: usize,
    end: usize,
    listing: Seq<Seq<usize>>,
    best: Seq<usize>,
    best_cost: u128,
    chosen: Choice,
)
    requires
        search_invariant(points, at_pair(start, end), best, best_cost, chosen),
    ensures
        search_invariant(points, within(start, end, listing, 0), best, best_cost, chosen),
{
    let n = points.len();
    assert forall|other: Choice| #[trigger] other.valid(n) implies (within(
        start,
        end,
        listing,
        0,
    ).tried(other) <==> at_pair(start, end).tried(other)) by {}
}

proof fn lemma_search_leaves_pair(
    points: Seq<Point>,
    start: usize,
    end: usize,
    listing: Seq<Seq<usize>>,
    best: Seq<usize>,
    best_cost: u128,
    chosen: Choice,
)
    requires
        end < usize::MAX,
        is_permutation_listing(listing, (points.len() - 3) as nat),
        search_invariant(
            points,
            within(start, end, listing, listing.len() as int),
            best,
            best_cost,
            chosen,
        ),
    ensures
        search_invariant(points, at_pair(start, (end + 1) as usize), best, best_cost, chosen),
{
    let n = points.len();
    let before = within(start, end, listing, listing.len() as int);
    let after = at_pair(start, (end + 1) as usize);
    assert forall|other: Choice| #[trigger] other.valid(n) implies (after.tried(other)
        <==> before.tried(other)) by {
        if other.start == start && other.end == end {
            assert(listing.contains(other.perm));
            let i = choose|i: int| 0 <= i < listing.len() && listing[i] == other.perm;
            assert(0 <= i < before.count && before.listing[i] == other.perm);
        }
    }
}

proof fn lemma_search_enters_start(
    points: Seq<Point>,
    start: usize,
    best: Seq<usize>,
    best_cost: u128,
    chosen: Choice,
)
    requires
        start < usize::MAX,
        search_invariant(points, at_pair(start, start), best, best_cost, chosen),
    ensures
        search_invariant(points, at_pair(start, (start + 1) as usize), best, best_cost, chosen),
{
    let n = points.len();
    assert forall|other: Choice| #[trigger] other.valid(n) implies (at_pair(
        start,
        (start + 1) as usize,
    ).tried(other) <==> at_pair(start, start).tried(other)) by {}
}

proof fn lemma_search_leaves_start(
    points: Seq<Point>,
    start: usize,
    best: Seq<usize>,
    best_cost: u128,
    chosen: Choice,
)
    requires
        start < points.len() <= usize::MAX,
        search_invariant(points, at_pair(start, points.len() as usize), best, best_cost, chosen),
    ensures
        search_invariant(
            points,
            at_pair((start + 1) as usize, (start + 1) as usize),
            best,
            best_cost,
            chosen,
        ),
{
    let n = points.len();
    let next = (start + 1) as usize;
    assert forall|other: Choice| #[trigger] other.valid(n) implies (at_pair(next, next).tried(
        other,
    ) <==> at_pair(start, n as usize).tried(other)) by {}
}

proof fn lemma_search_done(points: Seq<Point>, best: Seq<usize>, best_cost: u128, chosen: Choice)
    requires
        3 < points.len() <= usize::MAX,
        search_invariant(
            points,
            at_pair(points.len() as usize, points.len() as usize),
            best,
            best_cost,
            chosen,
        ),
    ensures
        is_brute_force_tour(points, best),
{
    let n = points.len();
    let end = at_pair(n as usize, n as usize);
    lemma_identity_is_tour((n - 3) as nat);
    let simplest = Choice { start: 1, end: 2, perm: identity_order((n - 3) as nat) };
    assert(simplest.valid(n) && end.tried(simplest));
    assert forall|other: Choice| #[trigger] other.valid(n) implies end.tried(other) by {}
    assert(is_first_cheapest(points, chosen));
    assert(best == chosen.tour());
}

fn build_candidate(start: usize, end: usize, perm: &Vec<usize>, Ghost(n): Ghost<nat>) -> (tour:
    Vec<usize>)
    requires
        (Choice { start, end, perm: perm@ }).valid(n),
        n <= usize::MAX,
    ensures
        tour@ == (Choice { start, end, perm: perm@ }).tour(),
{
    let mut tour: Vec<usize> = Vec::new();
    tour.push(0);
    tour.push(start);
    let mut i: usize = 0;
    while i < perm.len()
        invariant
            1 <= start < end < n <= usize::MAX,
            is_tour(perm@, (n - 3) as nat),
            0 <= i <= perm.len(),
            tour@ == seq![0usize, start] + Seq::new(
                i as nat,
                |j: int| lift(perm@[j], start, end) as usize,
            ),
        decreases perm.len() - i,
    {
        let x = perm[i];
        assert(x < n - 3);
        let mut v = x + 1;
        if x + 1 >= start {
            v = v + 1;
        }
        if x + 2 >= end {
            v = v + 1;
        }
        tour.push(v);
        assert(tour@ =~= seq![0usize, start] + Seq::new(
            (i + 1) as nat,
            |j: int| lift(perm@[j], start, end) as usize,
        ));
        i = i + 1;
    }
    tour.push(end);
    assert(tour@ =~= (Choice { start, end, perm: perm@ }).tour());
    tour
}

/// Finds an optimal tour by costing every candidate.
///
/// An instance of up to three points is returned in index order: all its
/// tours cost the same. Beyond that the search costs one candidate for each
/// pair of neighbours of index 0 and each order of the other points, `(n - 1)
/// * (n - 2) / 2 * (n - 3)!` in all, and returns the first of the cheapest.
/// `brute_force_operations` computes that count. A caller that cannot wait so
/// long has to refuse the instance by it: the search itself always runs to
/// the end.
pub fn brute_force_tour(points: &Vec<Point>) -> (tour: Vec<usize>)
    ensures
        is_brute_force_tour(points@, tour@),
        is_optimal_tour(points@, tour@),
{
    let n = points.len();
    if n <= 3 {
        let tour = identity_tour(points);
        proof {
            lemma_brute_force_tour_is_optimal(points@, tour@);
        }
        return tour;
    }
    let mut best: Vec<usize> = Vec::new();
    let mut best_cost: u128 = u128::MAX;
    let ghost mut chosen = Choice { start: 0, end: 0, perm: Seq::empty() };
    let mut start: usize = 1;
    while start < n
        invariant
            n == points.len(),
            n > 3,
            1 <= start <= n,
            search_invariant(points@, at_pair(start, start), best@, best_cost, chosen),
        decreases n - start,
    {
        let mut end: usize = start + 1;
        proof {
            lemma_search_enters_start(points@, start, best@, best_cost, chosen);
        }
        while end < n
            invariant
                n == points.len(),
                n > 3,
                1 <= start < end <= n,
                search_invariant(points@, at_pair(start, end), best@, best_cost, chosen),
            decreases n - end,
        {
            let mut stream = permutations_of_range(n - 3);
            let ghost listing = pending(stream);
            let ghost mut count: int = 0;
            proof {
                lemma_search_enters_pair(points@, start, end, listing, best@, best_cost, chosen);
                assert(listing.skip(0) =~= listing);
            }
            loop
                invariant
                    n == points.len(),
                    n > 3,
                    1 <= start < end < n,
                    is_permutation_listing(listing, (n - 3) as nat),
                    0 <= count <= listing.len(),
                    pending(stream) == listing.skip(count),
                    search_invariant(
                        points@,
                        within(start, end, listing, count),
                        best@,
                        best_cost,
                        chosen,
                    ),
                ensures
                    count == listing.len(),
                decreases listing.len() - count,
            {
                match next_permutation(&mut stream) {
                    Some(perm) => {
                        proof {
                            assert(perm@ == listing[count]);
                            assert(listing.skip(count).drop_first() =~= listing.skip(count + 1));
                            let progress = within(start, end, listing, count);
                            lemma_search_step(points@, progress, best@, best_cost, chosen);
                            lemma_candidate_is_tour(n as nat, next_choice(progress));
                            assert(advanced(progress) == within(start, end, listing, count + 1));
                        }
                        let tour = build_candidate(start, end, &perm, Ghost(n as nat));
                        let cost = tour_cost(&tour, points);
                        if cost < best_cost {
                            best_cost = cost;
                            best = tour;
                            proof {
                                chosen = Choice { start, end, perm: perm@ };
                            }
                        }
                        proof {
                            count = count + 1;
                        }
                    },
                    None => {
                        break ;
                    },
                }
            }
            proof {
                lemma_search_leaves_pair(points@, start, end, listing, best@, best_cost, chosen);
            }
            end = end + 1;
        }
        proof {
            lemma_search_leaves_start(points@, start, best@, best_cost, chosen);
        }
        start = start + 1;
    }
    proof {
        lemma_search_done(points@, best@, best_cost, chosen);
        lemma_brute_force_tour_is_optimal(points@, best@);
    }
    best
}

} // verus!
