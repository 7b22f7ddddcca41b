use polygon_nav::geometry::{Point, Vector, COORD_LIMIT};
use polygon_nav::navigation::{find_standing_walls, Navigator};
use polygon_nav::polygon::Polygon;
use polygon_nav::scene::Scene;

fn pt(x: i64, y: i64) -> Point {
    Point { x, y }
}

fn triangle_scene() -> Scene {
    let triangle =
        Polygon::from_vertices(&vec![pt(0, 1000), pt(-1000, -1000), pt(1000, -1000)]).unwrap();
    Scene::new(&vec![triangle], pt(0, 3000)).unwrap()
}

#[test]
fn new_agent_stands_in_open_space() {
    let agent = Navigator::new(triangle_scene(), pt(0, -3000)).unwrap();
    assert_eq!(agent.get_agent_pos(), pt(0, -3000));
    assert_eq!(agent.get_goal_pos(), pt(0, 3000));
    assert_eq!(agent.get_agent_walls(), None);
    assert!(!agent.reached_goal());
    assert_eq!(agent.get_scene().get_segments().len(), 3);
}

#[test]
fn agent_needs_its_start_on_the_grid() {
    assert!(Navigator::new(triangle_scene(), pt(COORD_LIMIT + 1, 0)).is_none());
}

#[test]
fn move_returns_the_distance_walked() {
    let mut agent = Navigator::new(triangle_scene(), pt(0, -3000)).unwrap();
    assert_eq!(agent.move_agent(pt(1000, -1000)), 2236);
    assert_eq!(agent.get_agent_pos(), pt(1000, -1000));
    assert_eq!(agent.move_agent(pt(0, 3000)), 4123);
    assert_eq!(agent.get_agent_pos(), pt(0, 3000));
}

#[test]
fn move_to_a_vertex_records_the_two_walls() {
    let mut agent = Navigator::new(triangle_scene(), pt(0, -3000)).unwrap();
    agent.move_agent(pt(1000, -1000));
    assert_eq!(agent.get_agent_walls(), Some((0, 2)));
    agent.move_agent(pt(0, 1000));
    assert_eq!(agent.get_agent_walls(), Some((1, 0)));
    agent.move_agent(pt(-1000, -1000));
    assert_eq!(agent.get_agent_walls(), Some((2, 1)));
}

#[test]
fn move_into_open_space_clears_the_walls() {
    let mut agent = Navigator::new(triangle_scene(), pt(0, -3000)).unwrap();
    agent.move_agent(pt(1000, -1000));
    assert!(agent.get_agent_walls().is_some());
    agent.move_agent(pt(0, 3000));
    assert_eq!(agent.get_agent_walls(), None);
    agent.move_agent(pt(0, -1000));
    assert_eq!(agent.get_agent_walls(), None);
}

#[test]
fn standing_walls_need_exactly_two_segments() {
    let first = Polygon::from_vertices(&vec![pt(0, 0), pt(10, 0), pt(5, 8)]).unwrap();
    let second = Polygon::from_vertices(&vec![pt(0, 0), pt(-10, 0), pt(-5, -8)]).unwrap();
    let scene = Scene::new(&vec![first, second], pt(50, 50)).unwrap();
    let segments = scene.get_segments();
    assert_eq!(find_standing_walls(segments, &pt(0, 0)), None);
    assert_eq!(find_standing_walls(segments, &pt(10, 0)), Some((2, 1)));
    assert_eq!(find_standing_walls(segments, &pt(5, 4)), None);
    assert_eq!(find_standing_walls(&vec![], &pt(0, 0)), None);
}

#[test]
fn goal_is_reached_within_the_tolerance() {
    let scene = Scene::open_field(pt(100, 100)).unwrap();
    let mut agent = Navigator::new(scene, pt(0, 0)).unwrap();
    agent.move_agent(pt(100, 110));
    assert!(!agent.reached_goal());
    agent.move_agent(pt(100, 109));
    assert!(agent.reached_goal());
    agent.move_agent(pt(106, 108));
    assert!(!agent.reached_goal());
    agent.move_agent(pt(106, 107));
    assert!(agent.reached_goal());
    agent.move_agent(pt(100, 100));
    assert!(agent.reached_goal());
}

#[test]
fn reset_puts_the_agent_back_at_the_start() {
    let mut agent = Navigator::new(triangle_scene(), pt(0, -3000)).unwrap();
    agent.move_agent(pt(1000, -1000));
    agent.reset_agent_pos();
    assert_eq!(agent.get_agent_pos(), pt(0, -3000));
    assert_eq!(agent.get_agent_walls(), None);
    assert_eq!(agent.get_goal_pos(), pt(0, 3000));
}

#[test]
fn agent_view_is_what_is_visible_from_where_it_stands() {
    let mut agent = Navigator::new(triangle_scene(), pt(0, -3000)).unwrap();
    assert_eq!(agent.get_agent_view(), vec![pt(1000, -1000), pt(-1000, -1000)]);
    agent.move_agent(pt(1000, -1000));
    assert_eq!(agent.get_agent_view(), vec![pt(0, 3000), pt(0, 1000), pt(-1000, -1000)]);
}

#[test]
fn agent_on_a_vertex_may_not_look_into_the_obstacle() {
    let mut agent = Navigator::new(triangle_scene(), pt(0, -3000)).unwrap();
    assert!(agent.is_legal_ray(&Vector { dx: -1, dy: 1 }));
    agent.move_agent(pt(1000, -1000));
    assert!(!agent.is_legal_ray(&Vector { dx: -1, dy: 1 }));
    assert!(agent.is_legal_ray(&Vector { dx: -1000, dy: 2000 }));
    assert!(agent.is_legal_ray(&Vector { dx: -2000, dy: 0 }));
    assert!(agent.is_legal_ray(&Vector { dx: 1, dy: 1 }));
}

#[test]
fn agent_looks_toward_one_point_at_a_time() {
    let mut agent = Navigator::new(triangle_scene(), pt(0, -3000)).unwrap();
    let mut seen = vec![];
    agent.find_closest_point(&pt(0, 3000), &mut seen);
    assert_eq!(seen, vec![]);
    agent.find_closest_point(&pt(-1000, -1000), &mut seen);
    assert_eq!(seen, vec![pt(-1000, -1000)]);
    agent.find_closest_point(&pt(-1000, -1000), &mut seen);
    assert_eq!(seen, vec![pt(-1000, -1000)]);
    agent.move_agent(pt(-1000, -1000));
    agent.find_closest_point(&pt(0, 3000), &mut seen);
    assert_eq!(seen, vec![pt(-1000, -1000), pt(0, 3000)]);
}

#[test]
fn checked_move_refuses_a_point_out_of_sight() {
    let mut agent = Navigator::new(triangle_scene(), pt(0, -3000)).unwrap();
    assert_eq!(agent.checked_move(pt(0, 3000)), None);
    assert_eq!(agent.checked_move(pt(0, 1000)), None);
    assert_eq!(agent.checked_move(pt(0, -3000)), None);
    assert_eq!(agent.checked_move(pt(2_000_000_000, 0)), None);
    assert_eq!(agent.get_agent_pos(), pt(0, -3000));
    assert_eq!(agent.get_agent_walls(), None);
    assert_eq!(agent.checked_move(pt(-1000, -1000)), Some(2236));
    assert_eq!(agent.get_agent_pos(), pt(-1000, -1000));
    assert_eq!(agent.get_agent_walls(), Some((2, 1)));
    assert_eq!(agent.checked_move(pt(0, 3000)), Some(4123));
    assert!(agent.reached_goal());
}
