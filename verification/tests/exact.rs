use tsp_solver::branch_and_bound::branch_and_bound;
use tsp_solver::branch_and_bound::branch_and_bound_tour;
use tsp_solver::branch_and_bound::BestResult;
use tsp_solver::branch_and_bound::SearchState;
use tsp_solver::effort::branch_and_bound_operations;
use tsp_solver::effort::brute_force_operations;
use tsp_solver::brute_force::brute_force_tour;
use tsp_solver::effort::factorial;
use tsp_solver::geometry::Point;
use tsp_solver::heuristics::identity_tour;
use tsp_solver::heuristics::nearest_neighbour_tour;
use tsp_solver::heuristics::radial_tour;
use tsp_solver::insertion::triangle_tour;
use tsp_solver::tour::tour_cost;

fn points_of(coords: &[(i32, i32)]) -> Vec<Point> {
    coords.iter().map(|&(x, y)| Point { x, y }).collect()
}

fn square() -> Vec<Point> {
    points_of(&[(0, 0), (0, 10), (10, 10), (10, 0)])
}

fn five_points() -> Vec<Point> {
    points_of(&[(0, 0), (40, 30), (10, 70), (-20, 35), (15, 20)])
}

fn seven_points() -> Vec<Point> {
    points_of(&[(0, 0), (900, 100), (300, 700), (-500, 400), (200, -300), (650, 650), (-100, -450)])
}

fn eight_points() -> Vec<Point> {
    points_of(&[
        (-337, 941),
        (-692, -192),
        (333, -902),
        (-852, 681),
        (97, -808),
        (-252, 193),
        (-882, 863),
        (39, -561),
    ])
}

fn all_orders(n: usize) -> Vec<Vec<usize>> {
    if n == 0 {
        return vec![vec![]];
    }
    let mut out = Vec::new();
    for shorter in all_orders(n - 1) {
        for at in 0..=shorter.len() {
            let mut order = shorter.clone();
            order.insert(at, n - 1);
            out.push(order);
        }
    }
    out
}

#[test]
fn factorial_of_small_numbers() {
    assert_eq!(factorial(0), Some(1));
    assert_eq!(factorial(1), Some(1));
    assert_eq!(factorial(5), Some(120));
    assert_eq!(factorial(10), Some(3628800));
}

#[test]
fn factorial_up_to_the_last_that_fits() {
    assert_eq!(factorial(20), Some(2432902008176640000));
    assert_eq!(factorial(21), None);
    assert_eq!(factorial(1000), None);
}

#[test]
fn operations_of_instances_too_small_to_search() {
    assert_eq!(brute_force_operations(0), Some(0));
    assert_eq!(brute_force_operations(1), Some(0));
    assert_eq!(brute_force_operations(3), Some(0));
}

#[test]
fn operations_count_pairs_times_orders() {
    assert_eq!(brute_force_operations(4), Some(3));
    assert_eq!(brute_force_operations(5), Some(12));
    assert_eq!(brute_force_operations(10), Some(181440));
    assert_eq!(brute_force_operations(21), Some(1216451004088320000));
}

#[test]
fn operations_beyond_what_fits() {
    assert_eq!(brute_force_operations(22), None);
    assert_eq!(brute_force_operations(23), None);
    assert_eq!(brute_force_operations(24), None);
    assert_eq!(brute_force_operations(usize::MAX), None);
}

#[test]
fn branch_and_bound_operations_count_the_orders_of_the_other_cities() {
    assert_eq!(branch_and_bound_operations(0), Some(0));
    assert_eq!(branch_and_bound_operations(1), Some(1));
    assert_eq!(branch_and_bound_operations(2), Some(1));
    assert_eq!(branch_and_bound_operations(5), Some(24));
    assert_eq!(branch_and_bound_operations(21), Some(2432902008176640000));
    assert_eq!(branch_and_bound_operations(22), None);
}

#[test]
fn brute_force_walks_the_perimeter_of_a_square() {
    let points = square();
    let tour = brute_force_tour(&points);
    assert_eq!(tour_cost(&tour, &points), 40);
    assert_eq!(tour, vec![0, 1, 2, 3]);
}

#[test]
fn branch_and_bound_walks_the_perimeter_of_a_square() {
    let points = square();
    let tour = branch_and_bound_tour(&points);
    assert_eq!(tour_cost(&tour, &points), 40);
    assert_eq!(tour, vec![0, 1, 2, 3]);
}

#[test]
fn brute_force_returns_small_instances_in_index_order() {
    assert_eq!(brute_force_tour(&points_of(&[])), Vec::<usize>::new());
    assert_eq!(brute_force_tour(&points_of(&[(4, 4)])), vec![0]);
    assert_eq!(brute_force_tour(&points_of(&[(4, 4), (0, 0)])), vec![0, 1]);
    assert_eq!(brute_force_tour(&points_of(&[(4, 4), (0, 0), (9, 1)])), vec![0, 1, 2]);
}

#[test]
fn branch_and_bound_on_small_instances() {
    assert_eq!(branch_and_bound_tour(&points_of(&[])), Vec::<usize>::new());
    assert_eq!(branch_and_bound_tour(&points_of(&[(4, 4)])), vec![0]);
    assert_eq!(branch_and_bound_tour(&points_of(&[(4, 4), (0, 0)])), vec![0, 1]);
    assert_eq!(branch_and_bound_tour(&points_of(&[(4, 4), (0, 0), (9, 1)])), vec![0, 1, 2]);
    assert_eq!(branch_and_bound_tour(&points_of(&[(4, 4), (9, 1), (0, 0)])), vec![0, 1, 2]);
}

#[test]
fn one_point_costs_nothing() {
    let points = points_of(&[(4, 4)]);
    assert_eq!(tour_cost(&brute_force_tour(&points), &points), 0);
    assert_eq!(tour_cost(&branch_and_bound_tour(&points), &points), 0);
}

#[test]
fn brute_force_returns_the_first_cheapest_candidate() {
    let points = five_points();
    let tour = brute_force_tour(&points);
    assert_eq!(tour, vec![0, 3, 2, 1, 4]);
    assert_eq!(tour_cost(&tour, &points), 190);
    let points = seven_points();
    let tour = brute_force_tour(&points);
    assert_eq!(tour, vec![0, 3, 2, 5, 1, 4, 6]);
    assert_eq!(tour_cost(&tour, &points), 4059);
    let points = eight_points();
    let tour = brute_force_tour(&points);
    assert_eq!(tour, vec![0, 5, 7, 2, 4, 1, 3, 6]);
    assert_eq!(tour_cost(&tour, &points), 4893);
}

#[test]
fn brute_force_takes_permutations_in_lexicographic_order() {
    let points = points_of(&[(0, 0), (10, 0), (0, 10), (-10, 0), (0, -10)]);
    assert_eq!(brute_force_tour(&points), vec![0, 1, 4, 3, 2]);
    let points = points_of(&[(0, 0), (3, 4), (6, 8), (9, 12), (12, 16)]);
    assert_eq!(brute_force_tour(&points), vec![0, 1, 3, 4, 2]);
}

#[test]
fn branch_and_bound_returns_the_first_optimal_tour_it_reaches() {
    let points = five_points();
    let tour = branch_and_bound_tour(&points);
    assert_eq!(tour, vec![0, 4, 1, 2, 3]);
    assert_eq!(tour_cost(&tour, &points), 190);
    let points = seven_points();
    let tour = branch_and_bound_tour(&points);
    assert_eq!(tour, vec![0, 6, 4, 1, 5, 2, 3]);
    assert_eq!(tour_cost(&tour, &points), 4059);
    let points = eight_points();
    let tour = branch_and_bound_tour(&points);
    assert_eq!(tour, vec![0, 6, 3, 1, 4, 2, 7, 5]);
    assert_eq!(tour_cost(&tour, &points), 4893);
}

#[test]
fn branch_and_bound_tries_equally_near_cities_in_index_order() {
    let points = points_of(&[(0, 0), (10, 0), (0, 10), (-10, 0), (0, -10)]);
    assert_eq!(branch_and_bound_tour(&points), vec![0, 1, 2, 3, 4]);
}

#[test]
fn exact_searches_find_the_cheapest_of_all_orders() {
    for points in [square(), five_points(), seven_points()] {
        let cheapest = all_orders(points.len())
            .iter()
            .map(|order| tour_cost(order, &points))
            .min()
            .unwrap();
        assert_eq!(tour_cost(&brute_force_tour(&points), &points), cheapest);
        assert_eq!(tour_cost(&branch_and_bound_tour(&points), &points), cheapest);
    }
}

#[test]
fn exact_searches_agree_and_no_heuristic_beats_them() {
    for points in [square(), five_points(), seven_points(), eight_points()] {
        let exact = tour_cost(&branch_and_bound_tour(&points), &points);
        assert_eq!(tour_cost(&brute_force_tour(&points), &points), exact);
        assert!(exact <= tour_cost(&identity_tour(&points), &points));
        assert!(exact <= tour_cost(&nearest_neighbour_tour(&points), &points));
        assert!(exact <= tour_cost(&triangle_tour(&points), &points));
        let keys: Vec<u64> = points.iter().map(|p| (p.y + 1000) as u64).collect();
        assert!(exact <= tour_cost(&radial_tour(&keys), &points));
    }
}

#[test]
fn exact_searches_give_the_same_tour_on_every_run() {
    let points = eight_points();
    assert_eq!(brute_force_tour(&points), brute_force_tour(&points));
    assert_eq!(branch_and_bound_tour(&points), branch_and_bound_tour(&points));
}

#[test]
fn search_from_a_partial_tour_keeps_a_better_best() {
    let points = square();
    let mut state = SearchState {
        path: vec![0, 2],
        visited: vec![true, false, true, false],
        current_distance: 15,
    };
    let mut best = BestResult { tour: vec![0, 1, 2, 3], cost: 40 };
    branch_and_bound(&points, &mut state, &mut best);
    assert_eq!(best.tour, vec![0, 1, 2, 3]);
    assert_eq!(best.cost, 40);
    assert_eq!(state.path, vec![0, 2]);
    assert_eq!(state.visited, vec![true, false, true, false]);
    assert_eq!(state.current_distance, 15);
}

#[test]
fn search_from_a_partial_tour_finds_the_best_below_it() {
    let points = square();
    let mut state = SearchState {
        path: vec![0, 2],
        visited: vec![true, false, true, false],
        current_distance: 15,
    };
    let mut best = BestResult { tour: vec![], cost: u128::MAX };
    branch_and_bound(&points, &mut state, &mut best);
    assert_eq!(best.tour, vec![0, 2, 1, 3]);
    assert_eq!(best.cost, 15 + 10 + 15 + 10);
    assert_eq!(state.path, vec![0, 2]);
}

#[test]
fn search_from_a_complete_tour_records_it() {
    let points = square();
    let mut state = SearchState {
        path: vec![0, 3, 2, 1],
        visited: vec![true; 4],
        current_distance: 30,
    };
    let mut best = BestResult { tour: vec![0, 2, 1, 3], cost: 50 };
    branch_and_bound(&points, &mut state, &mut best);
    assert_eq!(best.tour, vec![0, 3, 2, 1]);
    assert_eq!(best.cost, 40);
}
