use grid_pathfinding::cell::heuristic;
use grid_pathfinding::neighbors::neighbors;
use grid_pathfinding::Pathfinding;

#[test]
fn new_map_has_extent_and_no_obstacles() {
    let map = Pathfinding::new(4, 3);
    assert_eq!(map.width(), 4);
    assert_eq!(map.height(), 3);
    for x in 0..4 {
        for y in 0..3 {
            assert!(!map.is_blocked(x, y));
        }
    }
}

#[test]
fn set_obstacle_blocks_one_cell() {
    let mut map = Pathfinding::new(3, 3);
    map.set_obstacle(1, 2);
    for x in 0..3 {
        for y in 0..3 {
            assert_eq!(map.is_blocked(x, y), (x, y) == (1, 2));
        }
    }
}

#[test]
fn clear_obstacle_unblocks_one_cell() {
    let mut map = Pathfinding::new(3, 3);
    map.set_obstacle(1, 2);
    map.set_obstacle(2, 0);
    map.clear_obstacle(1, 2);
    assert!(!map.is_blocked(1, 2));
    assert!(map.is_blocked(2, 0));
}

#[test]
fn clear_obstacle_on_walkable_cell_changes_nothing() {
    let mut map = Pathfinding::new(2, 2);
    map.clear_obstacle(0, 1);
    for x in 0..2 {
        for y in 0..2 {
            assert!(!map.is_blocked(x, y));
        }
    }
}

#[test]
fn set_obstacle_twice_is_the_same_as_once() {
    let mut map = Pathfinding::new(2, 2);
    map.set_obstacle(1, 1);
    map.set_obstacle(1, 1);
    assert!(map.is_blocked(1, 1));
    map.clear_obstacle(1, 1);
    assert!(!map.is_blocked(1, 1));
}

#[test]
fn edits_outside_the_map_are_ignored() {
    let mut map = Pathfinding::new(3, 2);
    map.set_obstacle(3, 0);
    map.set_obstacle(0, 2);
    map.set_obstacle(usize::MAX, usize::MAX);
    map.clear_obstacle(3, 1);
    map.clear_obstacle(7, 7);
    assert_eq!(map.width(), 3);
    assert_eq!(map.height(), 2);
    for x in 0..3 {
        for y in 0..2 {
            assert!(!map.is_blocked(x, y));
        }
    }
}

#[test]
fn edits_on_a_map_without_cells_are_ignored() {
    let mut map = Pathfinding::new(0, 0);
    map.set_obstacle(0, 0);
    map.clear_obstacle(0, 0);
    assert_eq!(map.width(), 0);
    assert_eq!(map.height(), 0);
    let mut strip = Pathfinding::new(5, 0);
    strip.set_obstacle(2, 0);
    assert_eq!(strip.width(), 5);
    assert_eq!(strip.height(), 0);
}

#[test]
fn heuristic_is_the_manhattan_distance() {
    assert_eq!(heuristic((0, 0), (0, 0)), 0);
    assert_eq!(heuristic((0, 0), (4, 4)), 8);
    assert_eq!(heuristic((4, 4), (0, 0)), 8);
    assert_eq!(heuristic((1, 5), (3, 2)), 5);
    assert_eq!(heuristic((3, 2), (1, 5)), 5);
    assert_eq!(heuristic((7, 0), (7, 9)), 9);
    assert_eq!(heuristic((0, 3), (usize::MAX, 3)), usize::MAX);
}

#[test]
fn neighbors_in_the_open_come_in_the_fixed_order() {
    let map = Pathfinding::new(3, 3);
    assert_eq!(
        neighbors((1, 1), &map),
        vec![
            ((1, 2), 1),
            ((2, 1), 1),
            ((1, 0), 1),
            ((0, 1), 1),
            ((2, 2), 2),
            ((2, 0), 2),
            ((0, 2), 2),
            ((0, 0), 2),
        ]
    );
}

#[test]
fn neighbors_stop_at_the_edge_of_the_map() {
    let map = Pathfinding::new(3, 3);
    assert_eq!(neighbors((0, 0), &map), vec![((0, 1), 1), ((1, 0), 1), ((1, 1), 2)]);
    assert_eq!(neighbors((2, 2), &map), vec![((2, 1), 1), ((1, 2), 1), ((1, 1), 2)]);
    assert_eq!(
        neighbors((0, 1), &map),
        vec![((0, 2), 1), ((1, 1), 1), ((0, 0), 1), ((1, 2), 2), ((1, 0), 2)]
    );
}

#[test]
fn neighbors_leave_out_blocked_cells() {
    let mut map = Pathfinding::new(3, 3);
    map.set_obstacle(1, 2);
    map.set_obstacle(2, 0);
    map.set_obstacle(0, 0);
    assert_eq!(
        neighbors((1, 1), &map),
        vec![((2, 1), 1), ((1, 0), 1), ((0, 1), 1), ((2, 2), 2), ((0, 2), 2)]
    );
}

#[test]
fn neighbors_of_a_blocked_cell_are_still_listed() {
    let mut map = Pathfinding::new(2, 2);
    map.set_obstacle(0, 0);
    assert_eq!(neighbors((0, 0), &map), vec![((0, 1), 1), ((1, 0), 1), ((1, 1), 2)]);
}

#[test]
fn a_position_outside_the_map_has_no_neighbors() {
    let map = Pathfinding::new(3, 3);
    assert_eq!(neighbors((3, 1), &map), vec![]);
    assert_eq!(neighbors((1, 3), &map), vec![]);
    assert_eq!(neighbors((usize::MAX, 0), &map), vec![]);
    assert_eq!(neighbors((usize::MAX, usize::MAX), &map), vec![]);
    let empty = Pathfinding::new(0, 0);
    assert_eq!(neighbors((0, 0), &empty), vec![]);
    let strip = Pathfinding::new(4, 0);
    assert_eq!(neighbors((1, 0), &strip), vec![]);
}

#[test]
fn a_single_cell_has_no_neighbors() {
    let map = Pathfinding::new(1, 1);
    assert_eq!(neighbors((0, 0), &map), vec![]);
}

#[test]
fn can_hold_tells_which_extents_fit() {
    assert!(Pathfinding::can_hold(0, 0));
    assert!(Pathfinding::can_hold(5, 5));
    assert!(Pathfinding::can_hold(1000, 1000));
    assert!(Pathfinding::can_hold(usize::MAX - 2, 0));
    assert!(!Pathfinding::can_hold(usize::MAX - 1, 0));
    assert!(Pathfinding::can_hold(0, usize::MAX - 2));
    assert!(!Pathfinding::can_hold(0, usize::MAX));
    assert!(!Pathfinding::can_hold(usize::MAX, usize::MAX));
    assert!(!Pathfinding::can_hold(usize::MAX / 2, 2));
    assert!(!Pathfinding::can_hold(usize::MAX / 2, 1));
    assert!(Pathfinding::can_hold(usize::MAX / 4, 1));
}
