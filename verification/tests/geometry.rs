use tsp_solver::geometry::ceil_sqrt_u128;
use tsp_solver::geometry::centroid;
use tsp_solver::geometry::Point;

fn p(x: i32, y: i32) -> Point {
    Point { x, y }
}

#[test]
fn ceil_sqrt_of_squares_is_exact() {
    assert_eq!(ceil_sqrt_u128(0), 0);
    assert_eq!(ceil_sqrt_u128(1), 1);
    assert_eq!(ceil_sqrt_u128(4), 2);
    assert_eq!(ceil_sqrt_u128(144), 12);
    assert_eq!(ceil_sqrt_u128(1 << 64), 1 << 32);
}

#[test]
fn ceil_sqrt_rounds_up() {
    assert_eq!(ceil_sqrt_u128(2), 2);
    assert_eq!(ceil_sqrt_u128(3), 2);
    assert_eq!(ceil_sqrt_u128(5), 3);
    assert_eq!(ceil_sqrt_u128(99), 10);
    assert_eq!(ceil_sqrt_u128(101), 11);
}

#[test]
fn ceil_sqrt_of_the_largest_value() {
    assert_eq!(ceil_sqrt_u128(u128::MAX), 1 << 64);
    assert_eq!(ceil_sqrt_u128(((1u128 << 64) - 1) * ((1u128 << 64) - 1)), (1 << 64) - 1);
    assert_eq!(ceil_sqrt_u128(((1u128 << 64) - 1) * ((1u128 << 64) - 1) + 1), 1 << 64);
}

#[test]
fn distance_of_a_pythagorean_triple_is_exact() {
    assert_eq!(p(0, 0).distance(&p(3, 4)), 5);
    assert_eq!(p(-3, -4).distance(&p(0, 0)), 5);
    assert_eq!(p(5, 5).distance(&p(5, -7)), 12);
}

#[test]
fn distance_rounds_up_to_the_next_unit() {
    assert_eq!(p(0, 0).distance(&p(1, 1)), 2);
    assert_eq!(p(0, 0).distance(&p(10, 10)), 15);
    assert_eq!(p(0, 0).distance(&p(1000, 1000)), 1415);
}

#[test]
fn distance_is_zero_only_between_equal_points() {
    assert_eq!(p(7, -9).distance(&p(7, -9)), 0);
    assert_eq!(p(7, -9).distance(&p(7, -8)), 1);
    assert_eq!(p(7, -9).distance(&p(8, -9)), 1);
}

#[test]
fn distance_is_symmetric() {
    let a = p(-17, 230);
    let b = p(412, -9);
    assert_eq!(a.distance(&b), b.distance(&a));
    assert_eq!(a.distance(&b), 492);
}

#[test]
fn distance_obeys_the_triangle_inequality() {
    let a = p(0, 0);
    let b = p(1, 1);
    let c = p(2, 2);
    assert!(a.distance(&c) <= a.distance(&b) + b.distance(&c));
    assert_eq!(a.distance(&c), 3);
}

#[test]
fn distance_across_the_whole_grid() {
    let low = p(i32::MIN, i32::MIN);
    let high = p(i32::MAX, i32::MAX);
    assert_eq!(low.distance(&high), 6074000999);
    assert_eq!(p(i32::MIN, 0).distance(&p(i32::MAX, 0)), 4294967295);
}

#[test]
fn midpoint_is_the_mean_of_the_coordinates() {
    assert_eq!(p(0, 0).midpoint(&p(10, 20)), p(5, 10));
    assert_eq!(p(-4, 6).midpoint(&p(4, -6)), p(0, 0));
}

#[test]
fn midpoint_rounds_down() {
    assert_eq!(p(0, 0).midpoint(&p(1, 3)), p(0, 1));
    assert_eq!(p(-3, 0).midpoint(&p(0, -1)), p(-2, -1));
    assert_eq!(p(i32::MAX, i32::MIN).midpoint(&p(i32::MAX, i32::MIN)), p(i32::MAX, i32::MIN));
    assert_eq!(p(i32::MIN, i32::MIN).midpoint(&p(i32::MAX, i32::MAX)), p(-1, -1));
}

#[test]
fn centroid_is_the_mean_rounded_down() {
    assert_eq!(centroid(&vec![p(0, 0), p(0, 10), p(10, 10), p(10, 0)]), p(5, 5));
    assert_eq!(centroid(&vec![p(0, 0), p(40, 30), p(10, 70), p(-20, 35), p(15, 20)]), p(9, 31));
    assert_eq!(centroid(&vec![p(-1, -1), p(0, 0)]), p(-1, -1));
    assert_eq!(centroid(&vec![p(i32::MIN, i32::MAX)]), p(i32::MIN, i32::MAX));
}
