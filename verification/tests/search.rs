use std::collections::HashSet;

use gridmove::cell::Boundry;
use gridmove::direction::Direction;
use gridmove::grid::Grid;
use gridmove::location::Location;
use gridmove::pathfinding::{path_2d, BHeapState};

fn scenario_grid() -> Grid {
    let mut grid = Grid::new(6, 5, 5);
    grid.add_cell_boundry_and_adjacent(&Location::new(2, 0, 1), Direction::S, Boundry::Full);
    grid.add_cell_boundry_and_adjacent(&Location::new(3, 0, 1), Direction::S, Boundry::Full);
    grid.add_cell_boundry_and_adjacent(&Location::new(1, 0, 2), Direction::E, Boundry::Full);
    grid.add_cell_boundry_and_adjacent(&Location::new(4, 0, 2), Direction::SE, Boundry::Full);
    grid.add_cell_boundry_and_adjacent(&Location::new(3, 0, 2), Direction::S, Boundry::Half);
    grid.toggle_cell_difficult_terrain(&Location::new(2, 0, 3));
    grid.toggle_cell_difficult_terrain(&Location::new(2, 0, 4));
    grid.toggle_cell_difficult_terrain(&Location::new(3, 0, 4));
    grid.toggle_cell_obstruction(&Location::new(4, 0, 1));
    grid
}

fn as_set(v: Vec<Location>) -> HashSet<Location> {
    v.into_iter().collect()
}

#[test]
fn zero_budget_reaches_nothing() {
    let grid = Grid::new(4, 4, 1);
    let r = path_2d(grid, &Location::new(1, 0, 1), 0);
    assert!(r.is_empty());
}

#[test]
fn zero_budget_on_scenario_grid() {
    let r = path_2d(scenario_grid(), &Location::new(3, 0, 3), 0);
    assert!(r.is_empty());
}

#[test]
fn one_step_open_grid() {
    let grid = Grid::new(3, 3, 1);
    let r = as_set(path_2d(grid, &Location::new(1, 0, 1), 1));
    let mut expected = HashSet::new();
    for x in 0..3i8 {
        for z in 0..3i8 {
            if !(x == 1 && z == 1) {
                expected.insert(Location::new(x, 0, z));
            }
        }
    }
    assert_eq!(r, expected);
}

#[test]
fn start_never_in_result() {
    let grid = Grid::new(4, 4, 1);
    let r = path_2d(grid, &Location::new(2, 0, 2), 10);
    assert!(!r.contains(&Location::new(2, 0, 2)));
}

#[test]
fn result_has_no_duplicates() {
    let r = path_2d(scenario_grid(), &Location::new(0, 0, 0), 4);
    let set = as_set(r.clone());
    assert_eq!(set.len(), r.len());
}

#[test]
fn budget_monotonicity() {
    let start = Location::new(0, 0, 0);
    let mut previous: HashSet<Location> = HashSet::new();
    for budget in 0..6usize {
        let current = as_set(path_2d(scenario_grid(), &start, budget));
        assert!(previous.is_subset(&current));
        previous = current;
    }
}

#[test]
fn out_of_bounds_start_reaches_nothing() {
    let grid = Grid::new(3, 3, 1);
    let r = path_2d(grid, &Location::new(9, 0, 9), 5);
    assert!(r.is_empty());
}

#[test]
fn full_walls_limit_reachability() {
    let mut grid = Grid::new(3, 2, 1);
    // Wall off the whole seam between the two rows of a 3 x 2 strip.
    grid.add_cell_boundry_and_adjacent(&Location::new(0, 0, 0), Direction::S, Boundry::Full);
    grid.add_cell_boundry_and_adjacent(&Location::new(1, 0, 0), Direction::S, Boundry::Full);
    grid.add_cell_boundry_and_adjacent(&Location::new(2, 0, 0), Direction::S, Boundry::Full);
    let r = as_set(path_2d(grid, &Location::new(0, 0, 0), 10));
    let mut expected = HashSet::new();
    expected.insert(Location::new(1, 0, 0));
    expected.insert(Location::new(2, 0, 0));
    assert_eq!(r, expected);
}

#[test]
fn obstruction_never_reached() {
    let r = as_set(path_2d(scenario_grid(), &Location::new(3, 0, 0), 20));
    assert!(!r.contains(&Location::new(4, 0, 1)));
}

#[test]
fn difficult_terrain_consumes_budget() {
    let mut grid = Grid::new(1, 3, 1);
    grid.toggle_cell_difficult_terrain(&Location::new(0, 0, 1));
    // Entering the difficult middle cell costs 2, so budget 2 stops there.
    let r2 = as_set(path_2d(grid, &Location::new(0, 0, 0), 2));
    let mut expected2 = HashSet::new();
    expected2.insert(Location::new(0, 0, 1));
    assert_eq!(r2, expected2);
    let mut grid3 = Grid::new(1, 3, 1);
    grid3.toggle_cell_difficult_terrain(&Location::new(0, 0, 1));
    let r3 = as_set(path_2d(grid3, &Location::new(0, 0, 0), 3));
    let mut expected3 = HashSet::new();
    expected3.insert(Location::new(0, 0, 1));
    expected3.insert(Location::new(0, 0, 2));
    assert_eq!(r3, expected3);
}

#[test]
fn budget_one_with_difficult_middle_reaches_nothing() {
    let mut grid = Grid::new(1, 3, 1);
    grid.toggle_cell_difficult_terrain(&Location::new(0, 0, 1));
    let r = path_2d(grid, &Location::new(0, 0, 0), 1);
    assert!(r.is_empty());
}

#[test]
fn half_wall_detour() {
    let mut grid = Grid::new(1, 3, 1);
    grid.add_cell_boundry_and_adjacent(&Location::new(0, 0, 0), Direction::S, Boundry::Half);
    // The half wall makes the first step cost 2; the step beyond costs 1.
    let r2 = as_set(path_2d(grid, &Location::new(0, 0, 0), 2));
    let mut expected2 = HashSet::new();
    expected2.insert(Location::new(0, 0, 1));
    assert_eq!(r2, expected2);
}

#[test]
fn bheap_state_new_fields() {
    let st = BHeapState::new(7, Location::new(1, 2, 3));
    assert_eq!(st.0, 7);
    assert_eq!(st.1, Location::new(1, 2, 3));
}

#[test]
fn predecessor_keys_match_reachable_set() {
    let keys: HashSet<Location> = gridmove::pathfinding::predecessors_2d(
        &scenario_grid(),
        &Location::new(0, 0, 0),
        3,
    )
    .into_iter()
    .map(|(l, _)| l)
    .collect();
    let reachable = as_set(path_2d(scenario_grid(), &Location::new(0, 0, 0), 3));
    assert_eq!(keys, reachable);
}

#[test]
fn predecessors_on_a_line() {
    let grid = Grid::new(1, 3, 1);
    let pairs: HashSet<(Location, Location)> =
        gridmove::pathfinding::predecessors_2d(&grid, &Location::new(0, 0, 0), 10)
            .into_iter()
            .collect();
    let mut expected = HashSet::new();
    expected.insert((Location::new(0, 0, 1), Location::new(0, 0, 0)));
    expected.insert((Location::new(0, 0, 2), Location::new(0, 0, 1)));
    assert_eq!(pairs, expected);
}

#[test]
fn one_step_predecessors_point_at_start() {
    let grid = Grid::new(3, 3, 1);
    let start = Location::new(1, 0, 1);
    for (l, p) in gridmove::pathfinding::predecessors_2d(&grid, &start, 1) {
        assert_ne!(l, start);
        assert_eq!(p, start);
    }
}

#[test]
fn predecessor_chains_reach_start() {
    let grid = scenario_grid();
    let start = Location::new(0, 0, 0);
    let pairs = gridmove::pathfinding::predecessors_2d(&grid, &start, 6);
    let map: std::collections::HashMap<Location, Location> = pairs.into_iter().collect();
    for (&begin, _) in map.iter() {
        let mut cursor = begin;
        let mut hops = 0;
        while cursor != start {
            cursor = *map.get(&cursor).expect("chain leads through recorded cells");
            hops += 1;
            assert!(hops <= map.len());
        }
    }
}

#[test]
fn zero_budget_predecessors_empty() {
    let grid = Grid::new(3, 3, 1);
    let pairs = gridmove::pathfinding::predecessors_2d(&grid, &Location::new(1, 0, 1), 0);
    assert!(pairs.is_empty());
}
