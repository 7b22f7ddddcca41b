use polygon_nav::crossing::{intersect, Crossing, Segment};
use polygon_nav::fraction::fraction_less;
use polygon_nav::geometry::{
    cross_product, distance, distance_squared, isqrt, norm_squared, Point, Vector, COORD_LIMIT,
    DIST_MAX,
};

fn pt(x: i64, y: i64) -> Point {
    Point { x, y }
}

#[test]
fn isqrt_rounds_down() {
    assert_eq!(isqrt(0), 0);
    assert_eq!(isqrt(1), 1);
    assert_eq!(isqrt(2), 1);
    assert_eq!(isqrt(99), 9);
    assert_eq!(isqrt(100), 10);
    assert_eq!(isqrt(8_000_000_000_000_000_000), 2_828_427_124);
    assert_eq!(isqrt(u64::MAX), 4_294_967_295);
}

#[test]
fn distance_of_a_three_four_five_triangle() {
    assert_eq!(distance_squared(&pt(0, 0), &pt(3, 4)), 25);
    assert_eq!(distance(&pt(0, 0), &pt(3, 4)), 5);
    assert_eq!(distance(&pt(3, 4), &pt(0, 0)), 5);
    assert_eq!(distance(&pt(7, -2), &pt(7, -2)), 0);
}

#[test]
fn distance_rounds_down() {
    assert_eq!(distance(&pt(0, 0), &pt(1, 1)), 1);
    assert_eq!(distance(&pt(0, -3000), &pt(1000, -1000)), 2236);
}

#[test]
fn distance_across_the_whole_grid() {
    let low = pt(-COORD_LIMIT, -COORD_LIMIT);
    let high = pt(COORD_LIMIT, COORD_LIMIT);
    assert!(low.is_in_bounds() && high.is_in_bounds());
    assert_eq!(distance(&low, &high), DIST_MAX);
}

#[test]
fn bounds_end_at_the_limit() {
    assert!(pt(COORD_LIMIT, 0).is_in_bounds());
    assert!(!pt(COORD_LIMIT + 1, 0).is_in_bounds());
    assert!(!pt(0, -COORD_LIMIT - 1).is_in_bounds());
}

#[test]
fn cross_product_tells_left_from_right() {
    let east = Vector { dx: 5, dy: 0 };
    let north = Vector { dx: 0, dy: 2 };
    assert_eq!(cross_product(&east, &north), 10);
    assert_eq!(cross_product(&north, &east), -10);
    assert_eq!(cross_product(&east, &east.reverse()), 0);
    assert_eq!(norm_squared(&Vector { dx: -3, dy: 4 }), 25);
}

#[test]
fn displacement_leads_from_one_point_to_the_other() {
    let v = pt(7, 1).displacement_from(&pt(2, 5));
    assert_eq!(v, Vector { dx: 5, dy: -4 });
}

#[test]
fn segment_between_two_points_is_well_formed() {
    let s = Segment::between(pt(1, 2), pt(4, 6));
    assert_eq!(s.origin, pt(1, 2));
    assert_eq!(s.target, pt(4, 6));
    assert_eq!(s.direction, Vector { dx: 3, dy: 4 });
    assert!(s.is_wf());
    let bent = Segment { origin: pt(1, 2), direction: Vector { dx: 0, dy: 0 }, target: pt(4, 6) };
    assert!(!bent.is_wf());
}

#[test]
fn ray_meets_segment_half_way() {
    let s = Segment::between(pt(5, -5), pt(5, 5));
    let c = intersect(&pt(0, 0), &Vector { dx: 10, dy: 0 }, &s);
    assert_eq!(c, Some(Crossing { along_ray: 50, along_segment: 50, scale: 100 }));
    let c = c.unwrap();
    assert!(c.is_ahead() && c.is_on_segment() && c.is_within_ray() && !c.is_at_endpoint());
}

#[test]
fn crossing_does_not_depend_on_the_way_the_segment_runs() {
    let s = Segment::between(pt(5, 5), pt(5, -5));
    let c = intersect(&pt(0, 0), &Vector { dx: 10, dy: 0 }, &s);
    assert_eq!(c, Some(Crossing { along_ray: 50, along_segment: 50, scale: 100 }));
}

#[test]
fn ray_through_an_end_meets_the_segment_at_its_endpoint() {
    let s = Segment::between(pt(4, 0), pt(4, 8));
    let c = intersect(&pt(0, 0), &Vector { dx: 2, dy: 0 }, &s).unwrap();
    assert!(c.is_at_endpoint());
    assert_eq!(c.along_segment, 0);
    assert!(!c.is_within_ray());
}

#[test]
fn ray_pointing_away_meets_the_line_behind_it() {
    let s = Segment::between(pt(5, -5), pt(5, 5));
    let c = intersect(&pt(0, 0), &Vector { dx: -1, dy: 0 }, &s).unwrap();
    assert!(!c.is_ahead());
    assert!(!c.is_not_behind());
}

#[test]
fn parallel_ray_has_no_crossing() {
    let s = Segment::between(pt(0, 3), pt(9, 3));
    assert_eq!(intersect(&pt(0, 0), &Vector { dx: 4, dy: 0 }, &s), None);
    assert_eq!(intersect(&pt(0, 3), &Vector { dx: 4, dy: 0 }, &s), None);
}

#[test]
fn ray_without_direction_has_no_crossing() {
    let s = Segment::between(pt(0, 3), pt(9, 3));
    assert_eq!(intersect(&pt(0, 0), &Vector { dx: 0, dy: 0 }, &s), None);
    let dot = Segment::between(pt(2, 2), pt(2, 2));
    assert_eq!(intersect(&pt(0, 0), &Vector { dx: 1, dy: 1 }, &dot), None);
}

#[test]
fn nearer_crossing_is_no_farther() {
    let near = Crossing { along_ray: 1, along_segment: 0, scale: 3 };
    let far = Crossing { along_ray: 1, along_segment: 0, scale: 2 };
    assert!(near.is_no_farther_than(&far));
    assert!(!far.is_no_farther_than(&near));
    assert!(near.is_no_farther_than(&near));
}

#[test]
fn fractions_compare_exactly() {
    assert!(fraction_less(1, 3, 1, 2));
    assert!(!fraction_less(1, 2, 1, 3));
    assert!(!fraction_less(2, 4, 1, 2));
    assert!(fraction_less(0, 5, 1, 1_000_000));
    assert!(!fraction_less(7, 1, 7, 1));
}

#[test]
fn fractions_compare_where_products_overflow() {
    let big = u128::MAX;
    assert!(fraction_less(big - 1, big, big, big));
    assert!(!fraction_less(big, big, big - 1, big));
    assert!(fraction_less(big - 2, big - 1, big - 1, big));
    assert!(!fraction_less(big - 1, big, big - 2, big - 1));
    assert!(!fraction_less(big, big - 1, big, big - 1));
}
