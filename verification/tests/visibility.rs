use polygon_nav::crossing::Segment;
use polygon_nav::geometry::{Point, Vector};
use polygon_nav::polygon::Polygon;
use polygon_nav::scene::Scene;
use polygon_nav::visibility::{
    contains_point, find_closest_point, is_admitted, is_legal_ray, nearest_hit, push_new_point,
    resolve, visible_points, Sighting,
};

fn pt(x: i64, y: i64) -> Point {
    Point { x, y }
}

fn triangle() -> Polygon {
    Polygon::from_vertices(&vec![pt(0, 1000), pt(-1000, -1000), pt(1000, -1000)]).unwrap()
}

fn triangle_scene() -> Scene {
    Scene::new(&vec![triangle()], pt(0, 3000)).unwrap()
}

#[test]
fn open_field_shows_the_goal_and_nothing_else() {
    let scene = Scene::open_field(pt(3000, 4000)).unwrap();
    assert_eq!(visible_points(&pt(0, 0), None, &scene), vec![pt(3000, 4000)]);
    assert_eq!(visible_points(&pt(-5, 17), None, &scene), vec![pt(3000, 4000)]);
}

#[test]
fn open_field_shows_nothing_to_an_agent_on_the_goal() {
    let scene = Scene::open_field(pt(3000, 4000)).unwrap();
    assert_eq!(visible_points(&pt(3000, 4000), None, &scene), vec![]);
}

#[test]
fn open_field_ignores_walls_that_name_no_segment() {
    let scene = Scene::open_field(pt(3000, 4000)).unwrap();
    assert_eq!(visible_points(&pt(0, 0), Some((0, 1)), &scene), vec![pt(3000, 4000)]);
}

#[test]
fn triangle_hides_the_goal_and_shows_two_corners() {
    let scene = triangle_scene();
    let seen = visible_points(&pt(0, -3000), None, &scene);
    assert_eq!(seen, vec![pt(1000, -1000), pt(-1000, -1000)]);
}

#[test]
fn corner_of_the_triangle_shows_goal_and_both_other_corners() {
    let scene = triangle_scene();
    let seen = visible_points(&pt(1000, -1000), Some((0, 2)), &scene);
    assert_eq!(seen, vec![pt(0, 3000), pt(0, 1000), pt(-1000, -1000)]);
    let seen = visible_points(&pt(-1000, -1000), Some((2, 1)), &scene);
    assert_eq!(seen, vec![pt(0, 3000), pt(1000, -1000), pt(0, 1000)]);
}

#[test]
fn view_holds_no_point_twice_and_never_the_agent() {
    let scene = triangle_scene();
    for agent in [pt(0, -3000), pt(1000, -1000), pt(0, 1000), pt(2500, 10), pt(0, 3000)] {
        let seen = visible_points(&agent, None, &scene);
        for (i, p) in seen.iter().enumerate() {
            assert_ne!(*p, agent);
            assert!(p.is_in_bounds());
            assert!(!seen[..i].contains(p));
        }
    }
}

#[test]
fn look_blocked_in_the_middle_of_an_edge_shows_nothing() {
    let scene = triangle_scene();
    let segments = scene.get_segments();
    let goal = scene.get_goal();
    let mut seen = vec![];
    find_closest_point(segments, &goal, &pt(0, -3000), None, &pt(0, 1000), &mut seen);
    assert_eq!(seen, vec![]);
    find_closest_point(segments, &goal, &pt(0, -3000), None, &goal, &mut seen);
    assert_eq!(seen, vec![]);
}

#[test]
fn look_toward_the_own_position_shows_nothing() {
    let scene = triangle_scene();
    let mut seen = vec![];
    find_closest_point(
        scene.get_segments(),
        &scene.get_goal(),
        &pt(1000, -1000),
        None,
        &pt(1000, -1000),
        &mut seen,
    );
    assert_eq!(seen, vec![]);
}

#[test]
fn look_along_a_wall_shows_its_near_end() {
    let wedge = Polygon::from_vertices(&vec![pt(2, 0), pt(6, 0), pt(4, 3)]).unwrap();
    let scene = Scene::new(&vec![wedge], pt(100, 100)).unwrap();
    let segments = scene.get_segments();
    let goal = scene.get_goal();
    let mut seen = vec![];
    find_closest_point(segments, &goal, &pt(0, 0), None, &pt(6, 0), &mut seen);
    assert_eq!(seen, vec![pt(2, 0)]);
    let mut seen = vec![];
    find_closest_point(segments, &goal, &pt(0, 0), None, &pt(4, 3), &mut seen);
    assert_eq!(seen, vec![pt(4, 3)]);
    assert_eq!(visible_points(&pt(0, 0), None, &scene), vec![pt(100, 100), pt(4, 3), pt(2, 0)]);
}

#[test]
fn goal_behind_a_wall_is_hidden() {
    let wedge = Polygon::from_vertices(&vec![pt(2, 0), pt(6, 0), pt(4, 3)]).unwrap();
    let scene = Scene::new(&vec![wedge], pt(8, 1)).unwrap();
    let mut seen = vec![];
    find_closest_point(
        scene.get_segments(),
        &scene.get_goal(),
        &pt(0, 0),
        None,
        &pt(8, 1),
        &mut seen,
    );
    assert_eq!(seen, vec![]);
}

#[test]
fn nearest_hit_is_the_first_wall_along_the_ray() {
    let walls = vec![
        Segment::between(pt(9, -5), pt(9, 5)),
        Segment::between(pt(3, -5), pt(3, 5)),
        Segment::between(pt(6, -5), pt(6, 5)),
        Segment::between(pt(-2, -5), pt(-2, 5)),
        Segment::between(pt(1, 4), pt(1, 9)),
    ];
    let found = nearest_hit(&walls, &pt(0, 0), &Vector { dx: 1, dy: 0 }, false);
    let (index, crossing) = found.unwrap();
    assert_eq!(index, 1);
    assert_eq!(crossing.along_ray * 1, 3 * crossing.scale);
    assert!(!crossing.is_at_endpoint());
}

#[test]
fn nearest_hit_of_equally_near_walls_is_the_last() {
    let walls = vec![
        Segment::between(pt(3, 0), pt(3, 5)),
        Segment::between(pt(3, -5), pt(3, 5)),
        Segment::between(pt(3, -7), pt(3, 0)),
    ];
    let (index, crossing) = nearest_hit(&walls, &pt(0, 0), &Vector { dx: 1, dy: 0 }, false).unwrap();
    assert_eq!(index, 2);
    assert!(crossing.is_at_endpoint());
}

#[test]
fn nearest_hit_finds_nothing_where_nothing_is_ahead() {
    let walls = vec![Segment::between(pt(-2, -5), pt(-2, 5)), Segment::between(pt(0, 3), pt(9, 3))];
    assert_eq!(nearest_hit(&walls, &pt(0, 0), &Vector { dx: 1, dy: 0 }, false), None);
    assert_eq!(nearest_hit(&vec![], &pt(0, 0), &Vector { dx: 1, dy: 0 }, true), None);
}

#[test]
fn seeded_look_ignores_walls_beyond_its_target() {
    let walls = vec![Segment::between(pt(9, -5), pt(9, 5))];
    assert!(nearest_hit(&walls, &pt(0, 0), &Vector { dx: 5, dy: 0 }, false).is_some());
    assert_eq!(nearest_hit(&walls, &pt(0, 0), &Vector { dx: 5, dy: 0 }, true), None);
    assert!(nearest_hit(&walls, &pt(0, 0), &Vector { dx: 9, dy: 0 }, true).is_some());
}

#[test]
fn resolve_reports_the_vertex_or_none() {
    let walls = vec![Segment::between(pt(4, 0), pt(4, 8))];
    let at_end = resolve(&walls, &pt(0, 0), &pt(2, 0), false).unwrap();
    assert_eq!(at_end.vertex, Some(pt(4, 0)));
    let mid = resolve(&walls, &pt(0, 0), &pt(2, 1), false).unwrap();
    assert_eq!(mid.vertex, None);
    assert_eq!(resolve(&walls, &pt(0, 0), &pt(-2, 0), false), None);
    assert_eq!(
        resolve(&walls, &pt(0, 0), &pt(-2, 0), true),
        Some(Sighting { along_ray: 1, scale: 1, vertex: Some(pt(-2, 0)) })
    );
}

#[test]
fn wall_directions_themselves_are_legal() {
    let scene = triangle_scene();
    let segments = scene.get_segments();
    let walls = Some((0, 2));
    let along_first = segments[0].direction;
    let back_along_second = segments[2].direction.reverse();
    assert_eq!(along_first, Vector { dx: -1000, dy: 2000 });
    assert_eq!(back_along_second, Vector { dx: -2000, dy: 0 });
    assert!(is_legal_ray(segments, walls, &along_first));
    assert!(is_legal_ray(segments, walls, &back_along_second));
    assert!(is_legal_ray(segments, walls, &Vector { dx: -2, dy: 4 }));
}

#[test]
fn rays_into_the_obstacle_are_illegal() {
    let scene = triangle_scene();
    let segments = scene.get_segments();
    let walls = Some((0, 2));
    assert!(!is_legal_ray(segments, walls, &Vector { dx: -1, dy: 1 }));
    assert!(!is_legal_ray(segments, walls, &Vector { dx: -3, dy: 1 }));
    assert!(!is_legal_ray(segments, walls, &Vector { dx: -1000, dy: 1000 }));
}

#[test]
fn rays_away_from_the_obstacle_are_legal() {
    let scene = triangle_scene();
    let segments = scene.get_segments();
    let walls = Some((0, 2));
    assert!(is_legal_ray(segments, walls, &Vector { dx: 1, dy: 0 }));
    assert!(is_legal_ray(segments, walls, &Vector { dx: 0, dy: -1 }));
    assert!(is_legal_ray(segments, walls, &Vector { dx: 0, dy: 1 }));
    assert!(is_legal_ray(segments, walls, &Vector { dx: -1, dy: 3 }));
}

#[test]
fn every_ray_is_legal_in_open_space() {
    let scene = triangle_scene();
    let segments = scene.get_segments();
    assert!(is_legal_ray(segments, None, &Vector { dx: -1, dy: 1 }));
    assert!(is_legal_ray(segments, Some((0, 7)), &Vector { dx: -1, dy: 1 }));
}

#[test]
fn deferred_end_is_admitted_only_when_nearer() {
    let agent = pt(0, 0);
    let ray = Vector { dx: 10, dy: 0 };
    let half_way = Some(Sighting { along_ray: 1, scale: 2, vertex: None });
    assert!(is_admitted(&agent, &ray, &half_way, &pt(4, 0)));
    assert!(is_admitted(&agent, &ray, &half_way, &pt(3, 3)));
    assert!(!is_admitted(&agent, &ray, &half_way, &pt(5, 0)));
    assert!(!is_admitted(&agent, &ray, &half_way, &pt(3, 4)));
    assert!(!is_admitted(&agent, &ray, &half_way, &agent));
    assert!(is_admitted(&agent, &ray, &None, &pt(500, 0)));
    assert!(!is_admitted(&agent, &ray, &None, &agent));
}

#[test]
fn push_new_point_adds_only_what_is_new() {
    let mut list = vec![pt(1, 2)];
    push_new_point(&mut list, pt(3, 4));
    push_new_point(&mut list, pt(1, 2));
    assert_eq!(list, vec![pt(1, 2), pt(3, 4)]);
    assert!(contains_point(&list, &pt(3, 4)));
    assert!(!contains_point(&list, &pt(4, 3)));
}

#[test]
fn view_holds_only_the_goal_and_vertices() {
    let scene = triangle_scene();
    let corners = [pt(0, 1000), pt(-1000, -1000), pt(1000, -1000)];
    for agent in [pt(0, -3000), pt(1000, -1000), pt(17, 2000), pt(-2500, 10), pt(0, -1000)] {
        for p in visible_points(&agent, None, &scene) {
            assert!(p == scene.get_goal() || corners.contains(&p));
        }
    }
}
