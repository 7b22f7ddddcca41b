use polygon_nav::geometry::Point;
use polygon_nav::search::{estimate, hill_climbing_search, ltra, CostTable, SearchError};

fn pt(x: i64, y: i64) -> Point {
    Point { x, y }
}

#[test]
fn estimate_counts_the_rest_of_the_way_twice() {
    assert_eq!(estimate(&pt(0, 0), &pt(3, 4), &pt(6, 8)), 15);
    assert_eq!(estimate(&pt(0, 0), &pt(6, 8), &pt(6, 8)), 10);
    assert_eq!(estimate(&pt(0, -3000), &pt(1000, -1000), &pt(0, 3000)), 10482);
}

#[test]
fn hill_climbing_takes_the_lowest_estimate() {
    let children = vec![pt(9, 9), pt(1, 1), pt(5, 4)];
    assert_eq!(hill_climbing_search(&children, &pt(0, 0), &pt(5, 5)), Some(pt(5, 4)));
}

#[test]
fn hill_climbing_takes_the_first_of_equals() {
    let goal = pt(0, 0);
    assert_eq!(hill_climbing_search(&vec![pt(3, 4), pt(4, 3)], &pt(0, 0), &goal), Some(pt(3, 4)));
    assert_eq!(hill_climbing_search(&vec![pt(4, 3), pt(3, 4)], &pt(0, 0), &goal), Some(pt(4, 3)));
}

#[test]
fn hill_climbing_never_stays_where_it_is() {
    let children = vec![pt(0, 0), pt(9, 9), pt(1, 1)];
    assert_eq!(hill_climbing_search(&children, &pt(0, 0), &pt(5, 5)), Some(pt(1, 1)));
    assert_eq!(hill_climbing_search(&vec![pt(0, 0)], &pt(0, 0), &pt(5, 5)), None);
    assert_eq!(hill_climbing_search(&vec![], &pt(0, 0), &pt(5, 5)), None);
}

#[test]
fn new_cost_table_is_empty() {
    let table = CostTable::new();
    assert_eq!(table.get(&pt(0, 0)), None);
    assert!(table.can_back_up());
}

#[test]
fn learning_step_seeds_every_child_and_backs_up() {
    let mut table = CostTable::new();
    let children = vec![pt(10, 0), pt(0, 50)];
    let choice = ltra(&children, &pt(0, 0), &pt(100, 0), &mut table);
    assert_eq!(choice, Ok(pt(10, 0)));
    assert_eq!(table.get(&pt(10, 0)), Some(190));
    assert_eq!(table.get(&pt(0, 50)), Some(272));
    assert_eq!(table.get(&pt(0, 0)), Some(200));
    assert_eq!(table.get(&pt(100, 0)), None);
}

#[test]
fn learning_step_takes_the_first_of_equals() {
    let mut table = CostTable::new();
    let choice = ltra(&vec![pt(3, 4), pt(4, 3)], &pt(0, 0), &pt(0, 0), &mut table);
    assert_eq!(choice, Ok(pt(3, 4)));
    assert_eq!(table.get(&pt(0, 0)), Some(20));
    let mut table = CostTable::new();
    let choice = ltra(&vec![pt(4, 3), pt(3, 4)], &pt(0, 0), &pt(0, 0), &mut table);
    assert_eq!(choice, Ok(pt(4, 3)));
}

#[test]
fn learning_step_keeps_what_it_has_learned() {
    let mut table = CostTable::new();
    let children = vec![pt(10, 0), pt(0, 50)];
    ltra(&children, &pt(0, 0), &pt(100, 0), &mut table).unwrap();
    let back = ltra(&vec![pt(0, 0)], &pt(10, 0), &pt(100, 0), &mut table);
    assert_eq!(back, Ok(pt(0, 0)));
    assert_eq!(table.get(&pt(10, 0)), Some(210));
    assert_eq!(table.get(&pt(0, 50)), Some(272));
    assert_eq!(table.get(&pt(0, 0)), Some(200));
}

#[test]
fn learned_cost_rises_on_the_way_back_from_a_dead_end() {
    let mut table = CostTable::new();
    let children = vec![pt(10, 0), pt(0, 50)];
    let first = ltra(&children, &pt(0, 0), &pt(100, 0), &mut table).unwrap();
    let before = table.get(&pt(0, 0)).unwrap();
    ltra(&vec![pt(0, 0)], &first, &pt(100, 0), &mut table).unwrap();
    let second = ltra(&children, &pt(0, 0), &pt(100, 0), &mut table).unwrap();
    let after = table.get(&pt(0, 0)).unwrap();
    assert_eq!(second, pt(10, 0));
    assert_eq!(before, 200);
    assert_eq!(after, 220);
    assert!(after >= before);
}

#[test]
fn learned_cost_follows_a_nearer_child_that_takes_over() {
    let mut table = CostTable::new();
    let children = vec![pt(3688, 1550), pt(1000, 0)];
    let goal = pt(10000, 0);
    let first = ltra(&children, &pt(0, 0), &goal, &mut table).unwrap();
    assert_eq!(first, pt(3688, 1550));
    assert_eq!(table.get(&pt(0, 0)), Some(20998));
    ltra(&vec![pt(0, 0)], &first, &goal, &mut table).unwrap();
    assert_eq!(table.get(&pt(3688, 1550)), Some(24998));
    let second = ltra(&children, &pt(0, 0), &goal, &mut table).unwrap();
    assert_eq!(second, pt(1000, 0));
    assert_eq!(table.get(&pt(1000, 0)), Some(19000));
    assert_eq!(table.get(&pt(0, 0)), Some(20000));
}

#[test]
fn learning_step_without_children_is_unreachable() {
    let mut table = CostTable::new();
    assert_eq!(ltra(&vec![], &pt(0, 0), &pt(5, 5), &mut table), Err(SearchError::Unreachable));
    assert_eq!(table.get(&pt(0, 0)), None);
}

#[test]
fn cost_table_tells_points_apart() {
    let mut table = CostTable::new();
    let children = vec![pt(-1, 0), pt(0, -1), pt(1_000_000_000, -1_000_000_000)];
    ltra(&children, &pt(0, 0), &pt(0, 0), &mut table).unwrap();
    assert_eq!(table.get(&pt(-1, 0)), Some(3));
    assert_eq!(table.get(&pt(0, -1)), Some(3));
    assert_eq!(table.get(&pt(1_000_000_000, -1_000_000_000)), Some(4_242_640_686));
    assert_eq!(table.get(&pt(-1_000_000_000, 1_000_000_000)), None);
    assert_eq!(table.get(&pt(0, 1)), None);
    assert_eq!(table.get(&pt(0, 0)), Some(4));
}
