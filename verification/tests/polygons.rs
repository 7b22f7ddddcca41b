use polygon_nav::geometry::{Point, Vector, COORD_LIMIT};
use polygon_nav::polygon::{crossing_parity, point_in_polygon, Polygon};
use polygon_nav::scene::{is_free_point, Scene};

fn pt(x: i64, y: i64) -> Point {
    Point { x, y }
}

fn square() -> Polygon {
    Polygon::from_vertices(&vec![pt(0, 0), pt(1000, 0), pt(1000, 1000), pt(0, 1000)]).unwrap()
}

#[test]
fn polygon_loop_is_closed() {
    let vertices = vec![pt(0, 1000), pt(-1000, -1000), pt(1000, -1000)];
    let polygon = Polygon::from_vertices(&vertices).unwrap();
    let edges = polygon.edges();
    assert_eq!(polygon.len(), 3);
    assert_eq!(edges.len(), 3);
    assert_eq!(edges[0].origin, edges[2].target);
    assert_eq!(edges[1].origin, edges[0].target);
    assert_eq!(edges[2].origin, edges[1].target);
    for edge in edges.iter() {
        assert!(edge.is_wf());
    }
}

#[test]
fn polygon_edges_end_at_the_vertices_in_order() {
    let vertices = vec![pt(0, 1000), pt(-1000, -1000), pt(1000, -1000)];
    let polygon = Polygon::from_vertices(&vertices).unwrap();
    let edges = polygon.edges();
    assert_eq!(edges[0].origin, pt(1000, -1000));
    for i in 0..3 {
        assert_eq!(edges[i].target, vertices[i]);
    }
}

#[test]
fn polygon_needs_three_vertices() {
    assert!(Polygon::from_vertices(&vec![]).is_none());
    assert!(Polygon::from_vertices(&vec![pt(0, 0), pt(1, 1)]).is_none());
    assert!(Polygon::from_vertices(&vec![pt(0, 0), pt(1, 1), pt(2, 0)]).is_some());
}

#[test]
fn polygon_may_have_any_number_of_sides_from_three() {
    let hexagon = vec![pt(2, 0), pt(1, 2), pt(-1, 2), pt(-2, 0), pt(-1, -2), pt(1, -2)];
    assert_eq!(Polygon::from_vertices(&hexagon).unwrap().len(), 6);
}

#[test]
fn polygon_stays_on_the_grid() {
    let off = vec![pt(0, 0), pt(COORD_LIMIT + 1, 0), pt(0, 5)];
    assert!(Polygon::from_vertices(&off).is_none());
    let last_off = vec![pt(0, 0), pt(5, 0), pt(0, -COORD_LIMIT - 1)];
    assert!(Polygon::from_vertices(&last_off).is_none());
}

#[test]
fn parity_test_tells_inside_from_outside() {
    let square = square();
    assert!(point_in_polygon(&pt(500, 400), &square));
    assert!(point_in_polygon(&pt(999, 999), &square));
    assert!(!point_in_polygon(&pt(1500, 400), &square));
    assert!(!point_in_polygon(&pt(-1, 300), &square));
    assert!(!point_in_polygon(&pt(300, 1001), &square));
}

#[test]
fn parity_is_the_same_for_a_ray_to_the_right() {
    let square = square();
    let right = Vector { dx: 1, dy: 0 };
    for p in [pt(500, 400), pt(999, 999), pt(1500, 400), pt(-1, 300), pt(300, 1001)] {
        assert_eq!(point_in_polygon(&p, &square), crossing_parity(&p, &right, &square));
    }
}

#[test]
fn parity_counts_a_vertex_straight_above_twice() {
    let triangle = Polygon::from_vertices(&vec![pt(0, 1), pt(-1, 2), pt(1, 2)]).unwrap();
    assert!(point_in_polygon(&pt(0, 0), &triangle));
    assert!(!crossing_parity(&pt(0, 0), &Vector { dx: 1, dy: 0 }, &triangle));
}

#[test]
fn free_point_lies_in_no_polygon() {
    let far = Polygon::from_vertices(&vec![pt(5000, 5000), pt(6000, 5000), pt(5500, 6000)])
        .unwrap();
    let polygons = vec![square(), far];
    assert!(is_free_point(&pt(-500, 400), &polygons));
    assert!(!is_free_point(&pt(500, 400), &polygons));
    assert!(!is_free_point(&pt(5400, 5300), &polygons));
    assert!(is_free_point(&pt(500, 400), &vec![]));
}

#[test]
fn scene_lists_every_edge_polygon_after_polygon() {
    let far = Polygon::from_vertices(&vec![pt(5000, 5000), pt(6000, 5000), pt(5500, 6000)])
        .unwrap();
    let polygons = vec![square(), far];
    let scene = Scene::new(&polygons, pt(-7, 9)).unwrap();
    let segments = scene.get_segments();
    assert_eq!(scene.get_goal(), pt(-7, 9));
    assert_eq!(segments.len(), 7);
    for i in 0..4 {
        assert_eq!(segments[i], polygons[0].edges()[i]);
    }
    for i in 0..3 {
        assert_eq!(segments[4 + i], polygons[1].edges()[i]);
    }
}

#[test]
fn scene_needs_its_goal_on_the_grid() {
    assert!(Scene::new(&vec![], pt(0, COORD_LIMIT + 1)).is_none());
    assert!(Scene::open_field(pt(COORD_LIMIT + 1, 0)).is_none());
    let scene = Scene::open_field(pt(3, 4)).unwrap();
    assert_eq!(scene.get_segments().len(), 0);
    assert_eq!(scene.get_goal(), pt(3, 4));
}
