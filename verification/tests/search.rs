use grid_pathfinding::astar::astar;
use grid_pathfinding::Pathfinding;

fn map_with(width: usize, height: usize, obstacles: &[(usize, usize)]) -> Pathfinding {
    let mut map = Pathfinding::new(width, height);
    for &(x, y) in obstacles {
        map.set_obstacle(x, y);
    }
    map
}

fn step_cost(a: (usize, usize), b: (usize, usize)) -> usize {
    if a.0 == b.0 || a.1 == b.1 {
        1
    } else {
        2
    }
}

fn cost(path: &[(usize, usize)]) -> usize {
    path.windows(2).map(|w| step_cost(w[0], w[1])).sum()
}

fn touch(a: (usize, usize), b: (usize, usize)) -> bool {
    let dx = a.0.abs_diff(b.0);
    let dy = a.1.abs_diff(b.1);
    dx.max(dy) == 1
}

/// The cheapest cost from `start` to every cell, found by relaxing every
/// move of the map until nothing changes.
fn cheapest(map: &Pathfinding, start: (usize, usize)) -> Vec<Vec<Option<usize>>> {
    let (w, h) = (map.width(), map.height());
    let mut best: Vec<Vec<Option<usize>>> = vec![vec![None; h]; w];
    if start.0 >= w || start.1 >= h {
        return best;
    }
    best[start.0][start.1] = Some(0);
    let mut changed = true;
    while changed {
        changed = false;
        for x in 0..w {
            for y in 0..h {
                let Some(here) = best[x][y] else { continue };
                for dx in [-1isize, 0, 1] {
                    for dy in [-1isize, 0, 1] {
                        let (nx, ny) = (x as isize + dx, y as isize + dy);
                        if (dx, dy) == (0, 0) || nx < 0 || ny < 0 {
                            continue;
                        }
                        let (nx, ny) = (nx as usize, ny as usize);
                        if nx >= w || ny >= h || map.is_blocked(nx, ny) {
                            continue;
                        }
                        let there = here + step_cost((x, y), (nx, ny));
                        if best[nx][ny].map_or(true, |known| there < known) {
                            best[nx][ny] = Some(there);
                            changed = true;
                        }
                    }
                }
            }
        }
    }
    best
}

#[test]
fn empty_grid_corner_to_corner_goes_along_the_diagonal() {
    let map = Pathfinding::new(5, 5);
    let path = map.find_path(0, 0, 4, 4);
    assert_eq!(path.len(), 5);
    assert_eq!(cost(&path), 8);
    assert_eq!(path, vec![(0, 0), (1, 1), (2, 2), (3, 3), (4, 4)]);
}

#[test]
fn blocked_centre_is_passed_by_the_row_above_or_below() {
    let map = map_with(3, 3, &[(1, 1)]);
    let path = map.find_path(0, 1, 2, 1);
    assert_eq!(path.len(), 3);
    assert_eq!(path[0], (0, 1));
    assert_eq!(path[2], (2, 1));
    assert!(path[1] == (1, 0) || path[1] == (1, 2));
    assert_eq!(cost(&path), 4);
    assert_eq!(path, vec![(0, 1), (1, 2), (2, 1)]);
}

#[test]
fn wall_with_one_open_end_is_passed_at_that_end() {
    let low = map_with(3, 3, &[(1, 1), (1, 2)]);
    assert_eq!(low.find_path(0, 1, 2, 1), vec![(0, 1), (1, 0), (2, 1)]);
    let high = map_with(3, 3, &[(1, 0), (1, 1)]);
    assert_eq!(high.find_path(0, 1, 2, 1), vec![(0, 1), (1, 2), (2, 1)]);
}

#[test]
fn wall_across_the_map_leaves_no_path() {
    let map = map_with(3, 3, &[(1, 0), (1, 1), (1, 2)]);
    assert_eq!(map.find_path(0, 1, 2, 1), vec![]);
    assert_eq!(map.find_path(2, 1, 0, 1), vec![]);
}

#[test]
fn blocked_start_and_goal_give_no_path() {
    let map = map_with(3, 3, &[(0, 0), (2, 2)]);
    assert_eq!(map.find_path(0, 0, 2, 2), vec![]);
}

#[test]
fn blocked_start_is_still_searched_from() {
    let map = map_with(3, 3, &[(0, 0)]);
    assert_eq!(map.find_path(0, 0, 2, 2), vec![(0, 0), (1, 1), (2, 2)]);
}

#[test]
fn blocked_goal_is_never_entered() {
    let map = map_with(3, 3, &[(2, 2)]);
    assert_eq!(map.find_path(0, 0, 2, 2), vec![]);
    assert_eq!(map.find_path(2, 1, 2, 2), vec![]);
}

#[test]
fn start_equal_to_goal_gives_that_cell_alone() {
    let map = Pathfinding::new(3, 3);
    for x in 0..3 {
        for y in 0..3 {
            assert_eq!(map.find_path(x, y, x, y), vec![(x, y)]);
        }
    }
}

#[test]
fn start_equal_to_goal_gives_that_cell_even_if_blocked_or_outside() {
    let map = map_with(3, 3, &[(1, 1)]);
    assert_eq!(map.find_path(1, 1, 1, 1), vec![(1, 1)]);
    assert_eq!(map.find_path(7, 7, 7, 7), vec![(7, 7)]);
    assert_eq!(map.find_path(3, 0, 3, 0), vec![(3, 0)]);
    assert_eq!(
        map.find_path(usize::MAX, usize::MAX, usize::MAX, usize::MAX),
        vec![(usize::MAX, usize::MAX)]
    );
}

#[test]
fn map_without_cells_has_only_the_trivial_path() {
    let map = Pathfinding::new(0, 0);
    assert_eq!(map.find_path(0, 0, 1, 1), vec![]);
    assert_eq!(map.find_path(0, 0, 0, 0), vec![(0, 0)]);
    let strip = Pathfinding::new(4, 0);
    assert_eq!(strip.find_path(0, 0, 3, 0), vec![]);
    let column = Pathfinding::new(0, 4);
    assert_eq!(column.find_path(0, 0, 0, 3), vec![]);
}

#[test]
fn start_or_goal_outside_the_map_gives_no_path() {
    let map = Pathfinding::new(3, 3);
    assert_eq!(map.find_path(3, 1, 1, 1), vec![]);
    assert_eq!(map.find_path(1, 3, 1, 1), vec![]);
    assert_eq!(map.find_path(1, 1, 3, 1), vec![]);
    assert_eq!(map.find_path(1, 1, 1, 3), vec![]);
    assert_eq!(map.find_path(9, 9, 10, 10), vec![]);
    assert_eq!(map.find_path(usize::MAX, 0, 0, 0), vec![]);
    assert_eq!(map.find_path(0, 0, usize::MAX, usize::MAX), vec![]);
    assert_eq!(map.find_path(usize::MAX, usize::MAX, 0, usize::MAX), vec![]);
}

#[test]
fn enclosed_goal_is_not_found() {
    let ring = [(1, 1), (1, 2), (1, 3), (2, 1), (2, 3), (3, 1), (3, 2), (3, 3)];
    let map = map_with(5, 5, &ring);
    assert_eq!(map.find_path(0, 0, 2, 2), vec![]);
    assert_eq!(map.find_path(4, 2, 2, 2), vec![]);
}

#[test]
fn enclosed_goal_in_a_corner_is_not_found() {
    let map = map_with(4, 4, &[(0, 1), (1, 0), (1, 1)]);
    assert_eq!(map.find_path(3, 3, 0, 0), vec![]);
}

#[test]
fn enclosed_goal_is_found_from_a_blocked_cell_beside_it() {
    let ring = [(0, 0), (0, 1), (0, 2), (1, 0), (1, 2), (2, 0), (2, 1), (2, 2)];
    let map = map_with(3, 3, &ring);
    assert_eq!(map.find_path(0, 0, 1, 1), vec![(0, 0), (1, 1)]);
}

#[test]
fn searching_twice_gives_the_same_path() {
    let map = map_with(6, 5, &[(1, 0), (1, 1), (1, 2), (1, 3), (3, 1), (3, 2), (3, 3), (3, 4), (5, 1)]);
    let first = map.find_path(0, 0, 5, 4);
    let second = map.find_path(0, 0, 5, 4);
    assert_eq!(first, second);
    assert!(!first.is_empty());
}

#[test]
fn maze_is_walked_as_the_search_order_decides() {
    let map = map_with(6, 5, &[(1, 0), (1, 1), (1, 2), (1, 3), (3, 1), (3, 2), (3, 3), (3, 4), (5, 1)]);
    let path = map.find_path(0, 0, 5, 4);
    assert_eq!(
        path,
        vec![
            (0, 0),
            (0, 1),
            (0, 2),
            (0, 3),
            (1, 4),
            (2, 3),
            (2, 2),
            (2, 1),
            (3, 0),
            (4, 1),
            (5, 2),
            (5, 3),
            (5, 4),
        ]
    );
    assert_eq!(cost(&path), 17);
    assert_eq!(
        map.find_path(0, 0, 5, 0),
        vec![
            (0, 0),
            (0, 1),
            (0, 2),
            (0, 3),
            (1, 4),
            (2, 3),
            (2, 2),
            (2, 1),
            (3, 0),
            (4, 0),
            (5, 0),
        ]
    );
}

#[test]
fn ties_between_equal_paths_go_to_the_larger_cell() {
    let open = Pathfinding::new(5, 5);
    assert_eq!(open.find_path(3, 3, 0, 0), vec![(3, 3), (2, 2), (1, 1), (0, 0)]);
    assert_eq!(
        open.find_path(0, 4, 4, 0),
        vec![(0, 4), (1, 4), (2, 4), (3, 4), (4, 3), (4, 2), (4, 1), (4, 0)]
    );
    assert_eq!(open.find_path(0, 2, 4, 2), vec![(0, 2), (1, 2), (2, 2), (3, 2), (4, 2)]);
    assert_eq!(open.find_path(1, 0, 3, 4), vec![(1, 0), (2, 1), (3, 2), (3, 3), (3, 4)]);
    let dotted = map_with(4, 4, &[(1, 1), (2, 2)]);
    assert_eq!(dotted.find_path(0, 0, 3, 3), vec![(0, 0), (1, 0), (2, 1), (3, 2), (3, 3)]);
}

#[test]
fn obstacle_edits_between_searches_take_effect() {
    let mut map = Pathfinding::new(3, 1);
    assert_eq!(map.find_path(0, 0, 2, 0), vec![(0, 0), (1, 0), (2, 0)]);
    map.set_obstacle(1, 0);
    assert_eq!(map.find_path(0, 0, 2, 0), vec![]);
    map.clear_obstacle(1, 0);
    assert_eq!(map.find_path(0, 0, 2, 0), vec![(0, 0), (1, 0), (2, 0)]);
    map.set_obstacle(5, 5);
    assert_eq!(map.find_path(0, 0, 2, 0), vec![(0, 0), (1, 0), (2, 0)]);
}

#[test]
fn astar_and_find_path_agree() {
    let map = map_with(4, 4, &[(1, 1), (2, 2)]);
    for sx in 0..5 {
        for sy in 0..5 {
            assert_eq!(astar((sx, sy), (3, 3), &map), map.find_path(sx, sy, 3, 3));
        }
    }
}

#[test]
fn single_row_is_walked_cell_by_cell() {
    let map = Pathfinding::new(4, 1);
    assert_eq!(map.find_path(0, 0, 3, 0), vec![(0, 0), (1, 0), (2, 0), (3, 0)]);
    assert_eq!(map.find_path(3, 0, 0, 0), vec![(3, 0), (2, 0), (1, 0), (0, 0)]);
}

#[test]
fn diagonal_move_costs_two() {
    let map = Pathfinding::new(2, 2);
    let path = map.find_path(0, 0, 1, 1);
    assert_eq!(path, vec![(0, 0), (1, 1)]);
    assert_eq!(cost(&path), 2);
    let mut pinched = Pathfinding::new(2, 2);
    pinched.set_obstacle(0, 1);
    pinched.set_obstacle(1, 0);
    assert_eq!(pinched.find_path(0, 0, 1, 1), vec![(0, 0), (1, 1)]);
}

#[test]
fn every_small_map_gives_a_cheapest_path_of_touching_walkable_cells() {
    for mask in 0usize..512 {
        let mut map = Pathfinding::new(3, 3);
        for bit in 0..9 {
            if mask & (1 << bit) != 0 {
                map.set_obstacle(bit / 3, bit % 3);
            }
        }
        for s in 0..9 {
            let start = (s / 3, s % 3);
            let best = cheapest(&map, start);
            for g in 0..9 {
                let goal = (g / 3, g % 3);
                let path = map.find_path(start.0, start.1, goal.0, goal.1);
                match best[goal.0][goal.1] {
                    None => assert_eq!(path, vec![]),
                    Some(least) => {
                        assert_eq!(path.first(), Some(&start));
                        assert_eq!(path.last(), Some(&goal));
                        assert_eq!(cost(&path), least);
                        for pair in path.windows(2) {
                            assert!(touch(pair[0], pair[1]));
                            assert!(!map.is_blocked(pair[1].0, pair[1].1));
                        }
                        for cell in path.iter().skip(1) {
                            assert!(!map.is_blocked(cell.0, cell.1));
                        }
                    }
                }
            }
        }
    }
}

#[test]
fn larger_maps_give_cheapest_paths() {
    let mut seed: usize = 2024;
    for round in 0..40 {
        let (w, h) = (4 + round % 5, 3 + round % 4);
        let mut map = Pathfinding::new(w, h);
        for x in 0..w {
            for y in 0..h {
                seed = (seed * 1103515245 + 12345) % 2147483648;
                if (seed / 65536) % 10 < 3 {
                    map.set_obstacle(x, y);
                }
            }
        }
        let start = (0, 0);
        let best = cheapest(&map, start);
        for gx in 0..w {
            for gy in 0..h {
                let path = map.find_path(0, 0, gx, gy);
                match best[gx][gy] {
                    None => assert_eq!(path, vec![]),
                    Some(least) => {
                        assert_eq!(path.first(), Some(&start));
                        assert_eq!(path.last(), Some(&(gx, gy)));
                        assert_eq!(cost(&path), least);
                        for pair in path.windows(2) {
                            assert!(touch(pair[0], pair[1]));
                        }
                    }
                }
            }
        }
    }
}
