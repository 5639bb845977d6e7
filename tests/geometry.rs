use arena::math::{
    distance_squared, get_cross_points_with_sphere, has_circles_collision, integer_sqrt,
    nearest_point, try_normalize, Point, Vector,
};

#[test]
fn distance_squared_test() {
    let distance = distance_squared(&Point::new(0, 0), &Point::new(3, 4));
    assert_eq!(25, distance);
}

#[test]
fn normalize_test() {
    let vector = Vector::new(0, 0);
    let vec2 = try_normalize(&vector, 10);
    assert!(vec2.is_none());
}

#[test]
fn normalize_near_zero_gives_none() {
    assert!(try_normalize(&Vector::new(5, 5), 10).is_none());
    assert!(try_normalize(&Vector::new(7, 7), 10).is_none());
    assert!(try_normalize(&Vector::new(8, 7), 10).is_some());
}

#[test]
fn normalize_scales_to_unit() {
    assert_eq!(try_normalize(&Vector::new(3000, 4000), 10), Some(Vector::new(600, 800)));
    assert_eq!(try_normalize(&Vector::new(-3, 4), 1), Some(Vector::new(-600, 800)));
    assert_eq!(try_normalize(&Vector::new(0, -10000), 1), Some(Vector::new(0, -1000)));
}

#[test]
fn normalized_length_never_exceeds_unit() {
    for (x, y) in [(1, 1), (7, 3), (-1234567, 89), (999_999, -999_999), (2, -1)] {
        let w = try_normalize(&Vector::new(x, y), 1).unwrap();
        assert!(w.x * w.x + w.y * w.y <= 1000 * 1000);
        assert!(w.x * x >= 0 && w.y * y >= 0);
    }
}

#[test]
fn circles_overlap_is_strict() {
    let a = Point::new(0, 0);
    let b = Point::new(3000, 4000);
    assert!(!has_circles_collision(&a, &b, 5000));
    assert!(has_circles_collision(&a, &b, 5010));
    assert!(!has_circles_collision(&b, &a, 5000));
    assert!(has_circles_collision(&b, &a, 5010));
}

#[test]
fn integer_square_roots() {
    assert_eq!(integer_sqrt(0), 0);
    assert_eq!(integer_sqrt(15), 3);
    assert_eq!(integer_sqrt(16), 4);
    assert_eq!(integer_sqrt(16_000_000_000_000), 4_000_000);
    assert_eq!(integer_sqrt(u128::MAX), u64::MAX);
}

#[test]
fn segment_through_circle_meets_it_twice() {
    let r = get_cross_points_with_sphere(
        &Point::new(0, 0),
        1000,
        &Point::new(-2000, 0),
        &Point::new(2000, 0),
    );
    assert_eq!(r.len(), 2);
    assert!(r.contains(&Point::new(-1000, 0)));
    assert!(r.contains(&Point::new(1000, 0)));
    for p in &r {
        assert!((p.x + 2000) * 4000 + p.y * 0 >= 0);
    }
}

#[test]
fn segment_outside_circle_meets_nothing() {
    let r = get_cross_points_with_sphere(
        &Point::new(0, 0),
        1000,
        &Point::new(2000, 2000),
        &Point::new(3000, 3000),
    );
    assert!(r.is_empty());
}

#[test]
fn tangent_line_meets_once() {
    let r = get_cross_points_with_sphere(
        &Point::new(0, 0),
        1000,
        &Point::new(-3000, 1000),
        &Point::new(3000, 1000),
    );
    assert_eq!(r, vec![Point::new(0, 1000)]);
}

#[test]
fn zero_length_segment_meets_nothing() {
    let r = get_cross_points_with_sphere(
        &Point::new(0, 0),
        1000,
        &Point::new(500, 0),
        &Point::new(500, 0),
    );
    assert!(r.is_empty());
}

#[test]
fn shot_from_inside_keeps_only_forward_point() {
    let r = get_cross_points_with_sphere(
        &Point::new(100, 0),
        1000,
        &Point::new(100, 0),
        &Point::new(100, 5000),
    );
    assert_eq!(r, vec![Point::new(100, 1000)]);
}

#[test]
fn nearest_point_takes_first_of_equals() {
    let from = Point::new(0, 0);
    let pts = vec![Point::new(5, 0), Point::new(0, 3), Point::new(3, 0)];
    assert_eq!(nearest_point(&pts, &from), Some(Point::new(0, 3)));
    assert_eq!(nearest_point(&Vec::new(), &from), None);
}

#[test]
fn crossings_that_round_together_come_once() {
    let r = get_cross_points_with_sphere(
        &Point::new(0, 0),
        1,
        &Point::new(-5, 5),
        &Point::new(5, -5),
    );
    assert_eq!(r, vec![Point::new(0, 0)]);
}

#[test]
fn near_tangent_line_meets_once() {
    let r = get_cross_points_with_sphere(
        &Point::new(0, 0),
        500,
        &Point::new(500, -501),
        &Point::new(0, -500),
    );
    assert_eq!(r, vec![Point::new(0, -499)]);
}

#[test]
fn diagonal_through_circle_meets_twice() {
    let r = get_cross_points_with_sphere(
        &Point::new(0, 0),
        1000,
        &Point::new(-5000, 5000),
        &Point::new(5000, -5000),
    );
    assert_eq!(r.len(), 2);
    assert_ne!(r[0], r[1]);
    for p in &r {
        let d = p.x * p.x + p.y * p.y;
        assert!((998_000..=1_000_000).contains(&d));
    }
}

#[test]
fn line_missing_by_more_than_tolerance_meets_nothing() {
    let r = get_cross_points_with_sphere(
        &Point::new(0, 0),
        500,
        &Point::new(-1000, 502),
        &Point::new(1000, 502),
    );
    assert!(r.is_empty());
}
