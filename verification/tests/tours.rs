use tsp_solver::geometry::Point;
use tsp_solver::nearest::closest_unvisited;
use tsp_solver::ranking::rank_by_key;
use tsp_solver::tour::tour_cost;

fn pts(coords: &[(i32, i32)]) -> Vec<Point> {
    coords.iter().map(|&(x, y)| Point { x, y }).collect()
}

fn five() -> Vec<Point> {
    pts(&[(0, 0), (40, 30), (10, 70), (-20, 35), (15, 20)])
}

#[test]
fn cost_adds_the_closing_edge() {
    let points = pts(&[(0, 0), (3, 4), (3, 0)]);
    assert_eq!(tour_cost(&vec![0, 1, 2], &points), 5 + 4 + 3);
    assert_eq!(tour_cost(&vec![0, 1], &points), 10);
}

#[test]
fn cost_of_a_single_index_is_zero() {
    let points = pts(&[(5, 5), (9, 9)]);
    assert_eq!(tour_cost(&vec![0], &points), 0);
    assert_eq!(tour_cost(&vec![1], &points), 0);
}

#[test]
fn cost_of_the_empty_order_is_zero() {
    assert_eq!(tour_cost(&vec![], &pts(&[])), 0);
    assert_eq!(tour_cost(&vec![], &five()), 0);
}

#[test]
fn cost_of_the_identity_order() {
    assert_eq!(tour_cost(&vec![0, 1, 2, 3, 4], &five()), 211);
}

#[test]
fn cost_is_the_same_from_every_start() {
    let points = five();
    let tour = vec![0, 4, 1, 2, 3];
    let cost = tour_cost(&tour, &points);
    assert_eq!(cost, 190);
    for k in 0..tour.len() {
        let mut rotated = tour[k..].to_vec();
        rotated.extend_from_slice(&tour[..k]);
        assert_eq!(tour_cost(&rotated, &points), cost);
    }
}

#[test]
fn cost_is_the_same_in_both_directions() {
    let points = five();
    let tour = vec![2, 0, 3, 1, 4];
    let mut reversed = tour.clone();
    reversed.reverse();
    assert_eq!(tour_cost(&reversed, &points), tour_cost(&tour, &points));
}

#[test]
fn cost_may_repeat_an_index() {
    let points = pts(&[(0, 0), (0, 7)]);
    assert_eq!(tour_cost(&vec![0, 1, 0, 1], &points), 28);
}

#[test]
fn closest_takes_the_nearest_free_point() {
    let points = five();
    let target = Point { x: 12, y: 22 };
    assert_eq!(closest_unvisited(&points, &target, &vec![]), Some(4));
    assert_eq!(closest_unvisited(&points, &target, &vec![4]), Some(0));
    assert_eq!(closest_unvisited(&points, &target, &vec![4, 0]), Some(1));
}

#[test]
fn closest_breaks_ties_by_the_lowest_index() {
    let points = pts(&[(10, 0), (0, 10), (-10, 0), (0, -10)]);
    let target = Point { x: 0, y: 0 };
    assert_eq!(closest_unvisited(&points, &target, &vec![]), Some(0));
    assert_eq!(closest_unvisited(&points, &target, &vec![0]), Some(1));
    assert_eq!(closest_unvisited(&points, &target, &vec![1, 0]), Some(2));
    assert_eq!(closest_unvisited(&points, &target, &vec![2, 0, 1]), Some(3));
}

#[test]
fn closest_counts_distances_that_round_alike_as_ties() {
    let points = pts(&[(10, 10), (10, 9)]);
    let target = Point { x: 0, y: 0 };
    assert_eq!(closest_unvisited(&points, &target, &vec![]), Some(1));
    let points = pts(&[(11, 10), (10, 10)]);
    assert_eq!(closest_unvisited(&points, &target, &vec![]), Some(0));
}

#[test]
fn closest_finds_nothing_when_all_are_excluded() {
    let points = pts(&[(1, 1), (2, 2)]);
    let target = Point { x: 0, y: 0 };
    assert_eq!(closest_unvisited(&points, &target, &vec![1, 0]), None);
    assert_eq!(closest_unvisited(&pts(&[]), &target, &vec![]), None);
}

#[test]
fn closest_ignores_excluded_indices_outside_the_instance() {
    let points = pts(&[(1, 1), (2, 2)]);
    let target = Point { x: 3, y: 3 };
    assert_eq!(closest_unvisited(&points, &target, &vec![7, 1, 9]), Some(0));
}

#[test]
fn ranking_orders_by_key() {
    let keys = vec![30, 10, 20, 0];
    assert_eq!(rank_by_key(&keys, &vec![false; 4]), vec![3, 1, 2, 0]);
}

#[test]
fn ranking_keeps_equal_keys_in_index_order() {
    let keys = vec![5, 1, 5, 1, 5];
    assert_eq!(rank_by_key(&keys, &vec![false; 5]), vec![1, 3, 0, 2, 4]);
}

#[test]
fn ranking_leaves_marked_indices_out() {
    let keys = vec![5, 1, 5, 1, 5];
    assert_eq!(rank_by_key(&keys, &vec![true, false, false, true, false]), vec![1, 2, 4]);
    assert_eq!(rank_by_key(&keys, &vec![true; 5]), Vec::<usize>::new());
    assert_eq!(rank_by_key(&vec![], &vec![]), Vec::<usize>::new());
}
