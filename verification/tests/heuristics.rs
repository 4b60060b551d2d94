use tsp_solver::geometry::Point;
use tsp_solver::heuristics::identity_tour;
use tsp_solver::heuristics::nearest_neighbour_tour;
use tsp_solver::heuristics::radial_tour;
use tsp_solver::insertion::triangle_tour;
use tsp_solver::tour::tour_cost;

fn pts(coords: &[(i32, i32)]) -> Vec<Point> {
    coords.iter().map(|&(x, y)| Point { x, y }).collect()
}

fn seven() -> Vec<Point> {
    pts(&[(0, 0), (900, 100), (300, 700), (-500, 400), (200, -300), (650, 650), (-100, -450)])
}

fn eight() -> Vec<Point> {
    pts(&[
        (-337, 941),
        (-692, -192),
        (333, -902),
        (-852, 681),
        (97, -808),
        (-252, 193),
        (-882, 863),
        (39, -561),
    ])
}

fn is_permutation(tour: &[usize], n: usize) -> bool {
    let mut seen = vec![false; n];
    for &i in tour {
        if i >= n || seen[i] {
            return false;
        }
        seen[i] = true;
    }
    tour.len() == n
}

#[test]
fn identity_is_the_index_order() {
    assert_eq!(identity_tour(&seven()), vec![0, 1, 2, 3, 4, 5, 6]);
    assert_eq!(tour_cost(&identity_tour(&seven()), &seven()), 6445);
}

#[test]
fn radial_orders_by_angle_key() {
    assert_eq!(radial_tour(&vec![10314, 9921, 10157, 9686, 10078]), vec![3, 1, 4, 2, 0]);
}

#[test]
fn radial_visits_equal_keys_in_index_order() {
    assert_eq!(radial_tour(&vec![10000, 9999, 10000, 9999]), vec![1, 3, 0, 2]);
    assert_eq!(radial_tour(&vec![7, 7, 7]), vec![0, 1, 2]);
}

#[test]
fn nearest_neighbour_goes_to_the_closest_free_point() {
    let points = seven();
    let tour = nearest_neighbour_tour(&points);
    assert_eq!(tour, vec![0, 4, 6, 3, 2, 5, 1]);
    assert_eq!(tour_cost(&tour, &points), 4357);
    let points = eight();
    let tour = nearest_neighbour_tour(&points);
    assert_eq!(tour, vec![0, 6, 3, 5, 1, 7, 4, 2]);
    assert_eq!(tour_cost(&tour, &points), 5385);
}

#[test]
fn nearest_neighbour_sweeps_a_line_from_its_end() {
    let points = pts(&[(0, 0), (3, 4), (6, 8), (9, 12), (12, 16)]);
    let tour = nearest_neighbour_tour(&points);
    assert_eq!(tour, vec![0, 1, 2, 3, 4]);
    assert_eq!(tour_cost(&tour, &points), 2 * (5 + 5 + 5 + 5));
}

#[test]
fn nearest_neighbour_sweeps_a_line_whose_gap_is_not_whole() {
    let points = pts(&[(0, 0), (1, 1), (2, 2)]);
    let tour = nearest_neighbour_tour(&points);
    assert_eq!(tour, vec![0, 1, 2]);
    assert_eq!(tour_cost(&tour, &points), 2 + 2 + 3);
}

#[test]
fn nearest_neighbour_breaks_ties_by_index() {
    let points = pts(&[(0, 0), (0, -10), (10, 0), (0, 10), (-10, 0)]);
    assert_eq!(nearest_neighbour_tour(&points), vec![0, 1, 2, 3, 4]);
}

#[test]
fn triangle_returns_small_instances_in_index_order() {
    assert_eq!(triangle_tour(&pts(&[(5, 5), (0, 0)])), vec![0, 1]);
    assert_eq!(triangle_tour(&pts(&[(9, 9), (5, 5), (0, 0)])), vec![0, 1, 2]);
}

#[test]
fn triangle_seeds_with_the_points_nearest_the_centroid() {
    let points = pts(&[(0, 0), (0, 10), (10, 10), (10, 0)]);
    let tour = triangle_tour(&points);
    assert_eq!(tour, vec![3, 0, 1, 2]);
    assert_eq!(tour_cost(&tour, &points), 40);
}

#[test]
fn triangle_inserts_the_best_scoring_point() {
    let points = pts(&[(0, 0), (40, 30), (10, 70), (-20, 35), (15, 20)]);
    let tour = triangle_tour(&points);
    assert_eq!(tour, vec![4, 2, 3, 0, 1]);
    assert_eq!(tour_cost(&tour, &points), 216);
    let points = seven();
    let tour = triangle_tour(&points);
    assert_eq!(tour, vec![3, 0, 6, 4, 1, 5, 2]);
    assert_eq!(tour_cost(&tour, &points), 4059);
    let points = eight();
    let tour = triangle_tour(&points);
    assert_eq!(tour, vec![5, 0, 6, 3, 1, 4, 2, 7]);
    assert_eq!(tour_cost(&tour, &points), 4893);
}

#[test]
fn triangle_breaks_ties_by_the_first_edge() {
    let points = pts(&[(0, 0), (10, 0), (0, 10), (-10, 0), (0, -10)]);
    assert_eq!(triangle_tour(&points), vec![3, 4, 0, 1, 2]);
}

#[test]
fn every_heuristic_returns_a_permutation() {
    for points in [seven(), eight()] {
        let n = points.len();
        assert!(is_permutation(&identity_tour(&points), n));
        assert!(is_permutation(&nearest_neighbour_tour(&points), n));
        assert!(is_permutation(&triangle_tour(&points), n));
        let keys: Vec<u64> = points.iter().map(|p| (p.x + 2000) as u64 / 100).collect();
        assert!(is_permutation(&radial_tour(&keys), n));
    }
}

#[test]
fn one_point_gives_the_tour_of_that_point() {
    let points = pts(&[(3, -8)]);
    assert_eq!(identity_tour(&points), vec![0]);
    assert_eq!(nearest_neighbour_tour(&points), vec![0]);
    assert_eq!(triangle_tour(&points), vec![0]);
    assert_eq!(radial_tour(&vec![10000]), vec![0]);
    assert_eq!(tour_cost(&vec![0], &points), 0);
}

#[test]
fn no_point_gives_the_empty_tour() {
    let points = pts(&[]);
    assert_eq!(identity_tour(&points), Vec::<usize>::new());
    assert_eq!(nearest_neighbour_tour(&points), Vec::<usize>::new());
    assert_eq!(triangle_tour(&points), Vec::<usize>::new());
    assert_eq!(radial_tour(&vec![]), Vec::<usize>::new());
}

#[test]
fn heuristics_give_the_same_tour_on_every_run() {
    let points = eight();
    assert_eq!(identity_tour(&points), identity_tour(&points));
    assert_eq!(nearest_neighbour_tour(&points), nearest_neighbour_tour(&points));
    assert_eq!(triangle_tour(&points), triangle_tour(&points));
    let keys = vec![3, 1, 4, 1, 5, 9, 2, 6];
    assert_eq!(radial_tour(&keys), radial_tour(&keys));
}
