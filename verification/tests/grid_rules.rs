use gridmove::cell::Boundry;
use gridmove::direction::Direction;
use gridmove::grid::Grid;
use gridmove::location::Location;

/// The scenario grid: a 6 x 5 layer with full walls south of (2,0,1) and
/// (3,0,1), a full wall east of (1,0,2), a full wall south-east of
/// (4,0,2), a half wall south of (3,0,2), difficult terrain at three
/// cells, and an obstruction at (4,0,1).
fn scenario_grid() -> Grid {
    let mut grid = Grid::new(6, 5, 5);
    grid.add_cell_boundry_and_adjacent(&Location::new(2, 0, 1), Direction::S, Boundry::Full);
    grid.add_cell_boundry_and_adjacent(&Location::new(3, 0, 1), Direction::S, Boundry::Full);
    grid.add_cell_boundry_and_adjacent(&Location::new(1, 0, 2), Direction::E, Boundry::Full);
    grid.add_cell_boundry_and_adjacent(&Location::new(4, 0, 2), Direction::SE, Boundry::Full);
    grid.add_cell_boundry_and_adjacent(&Location::new(3, 0, 2), Direction::S, Boundry::Half);

    grid.toggle_cell_difficult_terrain(&Location::new(2, 0, 3));
    grid.toggle_cell_difficult_terrain(&Location::new(2, 0, 4));
    grid.toggle_cell_difficult_terrain(&Location::new(3, 0, 4));

    grid.toggle_cell_obstruction(&Location::new(4, 0, 1));

    grid
}

#[test]
fn scenario_full_wall_blocks_south() {
    let grid = scenario_grid();
    let r = grid.try_get_passable_neighbor(&Location::new(2, 0, 1), &Direction::S);
    assert_eq!(r, None);
}

#[test]
fn scenario_corner_cut_blocked() {
    let grid = scenario_grid();
    let r = grid.try_get_passable_neighbor(&Location::new(1, 0, 1), &Direction::SE);
    assert_eq!(r, None);
}

#[test]
fn scenario_east_open() {
    let grid = scenario_grid();
    let r = grid.try_get_passable_neighbor(&Location::new(1, 0, 1), &Direction::E);
    assert_eq!(r, Some(Location::new(2, 0, 1)));
}

#[test]
fn scenario_south_open() {
    let grid = scenario_grid();
    let r = grid.try_get_passable_neighbor(&Location::new(1, 0, 1), &Direction::S);
    assert_eq!(r, Some(Location::new(1, 0, 2)));
}

#[test]
fn scenario_obstruction_blocks_diagonal() {
    let grid = scenario_grid();
    let r = grid.try_get_passable_neighbor(&Location::new(3, 0, 2), &Direction::NE);
    assert_eq!(r, None);
}

#[test]
fn scenario_half_wall_still_passable() {
    let grid = scenario_grid();
    let r = grid.try_get_passable_neighbor(&Location::new(3, 0, 2), &Direction::S);
    assert_eq!(r, Some(Location::new(3, 0, 3)));
}

#[test]
fn scenario_diagonal_into_half_walled_cell() {
    let grid = scenario_grid();
    let r = grid.try_get_passable_neighbor(&Location::new(4, 0, 2), &Direction::SW);
    assert_eq!(r, Some(Location::new(3, 0, 3)));
}

#[test]
fn scenario_diagonal_flank_obstructed() {
    let grid = scenario_grid();
    let r = grid.try_get_passable_neighbor(&Location::new(4, 0, 2), &Direction::NW);
    assert_eq!(r, None);
}

#[test]
fn scenario_diagonal_flank_walled() {
    let grid = scenario_grid();
    let r = grid.try_get_passable_neighbor(&Location::new(2, 0, 2), &Direction::SW);
    assert_eq!(r, None);
}

#[test]
fn scenario_full_diagonal_wall_blocks() {
    let grid = scenario_grid();
    let r = grid.try_get_passable_neighbor(&Location::new(4, 0, 2), &Direction::SE);
    assert_eq!(r, None);
}

#[test]
fn scenario_plain_moves_open() {
    let grid = scenario_grid();
    assert_eq!(
        grid.try_get_passable_neighbor(&Location::new(4, 0, 3), &Direction::E),
        Some(Location::new(5, 0, 3))
    );
    assert_eq!(
        grid.try_get_passable_neighbor(&Location::new(0, 0, 4), &Direction::NE),
        Some(Location::new(1, 0, 3))
    );
}

#[test]
fn scenario_half_wall_costs_two() {
    let grid = scenario_grid();
    assert_eq!(grid.cost_2d(&Location::new(3, 0, 2), &Location::new(3, 0, 3)), 2);
}

#[test]
fn scenario_diagonal_costs_two_over_half_wall() {
    let grid = scenario_grid();
    assert_eq!(grid.cost_2d(&Location::new(3, 0, 2), &Location::new(2, 0, 3)), 2);
    assert_eq!(grid.cost_2d(&Location::new(3, 0, 2), &Location::new(4, 0, 3)), 2);
}

#[test]
fn difficult_terrain_costs_two() {
    let grid = scenario_grid();
    assert_eq!(grid.cost_2d(&Location::new(2, 0, 2), &Location::new(2, 0, 3)), 2);
}

#[test]
fn open_move_costs_one() {
    let grid = scenario_grid();
    assert_eq!(grid.cost_2d(&Location::new(0, 0, 0), &Location::new(1, 0, 0)), 1);
    assert_eq!(grid.cost_2d(&Location::new(0, 0, 0), &Location::new(1, 0, 1)), 1);
}

#[test]
fn costs_always_one_or_two() {
    let grid = scenario_grid();
    let dirs = vec![
        Direction::NW,
        Direction::N,
        Direction::NE,
        Direction::W,
        Direction::E,
        Direction::SW,
        Direction::S,
        Direction::SE,
    ];
    for x in 1..5i8 {
        for z in 1..4i8 {
            let a = Location::new(x, 0, z);
            for d in dirs.iter() {
                let b = a.get_loc_from_dir(d);
                let c = grid.cost_2d(&a, &b);
                assert!(c == 1 || c == 2);
            }
        }
    }
}

#[test]
fn mirroring_blocks_both_ways() {
    let mut grid = Grid::new(4, 4, 1);
    grid.add_cell_boundry_and_adjacent(&Location::new(1, 0, 1), Direction::E, Boundry::Full);
    assert_eq!(grid.try_get_passable_neighbor(&Location::new(1, 0, 1), &Direction::E), None);
    assert_eq!(grid.try_get_passable_neighbor(&Location::new(2, 0, 1), &Direction::W), None);
}

#[test]
fn mirroring_writes_neighbor_cell() {
    let mut grid = Grid::new(4, 4, 1);
    grid.add_cell_boundry_and_adjacent(&Location::new(1, 0, 1), Direction::S, Boundry::Half);
    let a = grid.get_ref_cell(&Location::new(1, 0, 1)).unwrap();
    assert_eq!(a.cost_to_neighbor(&Location::new(1, 0, 2)), 2);
    let b = grid.get_ref_cell(&Location::new(1, 0, 2)).unwrap();
    assert_eq!(b.cost_to_neighbor(&Location::new(1, 0, 1)), 2);
}

#[test]
fn boundary_at_grid_edge_not_mirrored_out_of_bounds() {
    let mut grid = Grid::new(2, 2, 1);
    grid.add_cell_boundry_and_adjacent(&Location::new(0, 0, 0), Direction::N, Boundry::Full);
    assert_eq!(grid.try_get_passable_neighbor(&Location::new(0, 0, 0), &Direction::N), None);
    assert_eq!(
        grid.try_get_passable_neighbor(&Location::new(0, 0, 0), &Direction::S),
        Some(Location::new(0, 0, 1))
    );
}

#[test]
fn out_of_bounds_mutations_are_noops() {
    let mut grid = Grid::new(3, 3, 1);
    grid.add_cell_boundry_and_adjacent(&Location::new(9, 0, 0), Direction::S, Boundry::Full);
    grid.toggle_cell_difficult_terrain(&Location::new(-1, 0, 0));
    grid.toggle_cell_obstruction(&Location::new(0, 5, 0));
    for x in 0..3i8 {
        for z in 0..3i8 {
            let c = grid.get_ref_cell(&Location::new(x, 0, z)).unwrap();
            assert!(!c.is_difficult_terrain);
            assert!(!c.is_obstructed);
        }
    }
}

#[test]
fn obstruction_blocks_from_every_neighbor() {
    let grid = scenario_grid();
    let target = Location::new(4, 0, 1);
    let dirs = vec![
        Direction::NW,
        Direction::N,
        Direction::NE,
        Direction::W,
        Direction::E,
        Direction::SW,
        Direction::S,
        Direction::SE,
    ];
    for d in dirs {
        let from = target.get_loc_from_dir(&d);
        let back = d.get_opposite();
        assert_eq!(grid.try_get_passable_neighbor(&from, &back), None);
    }
}

#[test]
fn obstruction_does_not_change_cost() {
    let mut grid = Grid::new(3, 3, 1);
    let before = grid.cost_2d(&Location::new(0, 0, 0), &Location::new(1, 0, 0));
    grid.toggle_cell_obstruction(&Location::new(1, 0, 0));
    let after = grid.cost_2d(&Location::new(0, 0, 0), &Location::new(1, 0, 0));
    assert_eq!(before, 1);
    assert_eq!(after, 1);
}

#[test]
fn toggle_twice_restores() {
    let mut grid = Grid::new(3, 3, 1);
    let loc = Location::new(1, 0, 1);
    grid.toggle_cell_difficult_terrain(&loc);
    assert!(grid.get_ref_cell(&loc).unwrap().is_difficult_terrain);
    grid.toggle_cell_difficult_terrain(&loc);
    assert!(!grid.get_ref_cell(&loc).unwrap().is_difficult_terrain);
}

#[test]
fn in_bounds_checks() {
    let grid = Grid::new(6, 5, 5);
    assert!(grid.in_bounds(&Location::new(0, 0, 0)));
    assert!(grid.in_bounds(&Location::new(5, 4, 4)));
    assert!(!grid.in_bounds(&Location::new(6, 0, 0)));
    assert!(!grid.in_bounds(&Location::new(0, 5, 0)));
    assert!(!grid.in_bounds(&Location::new(0, 0, 5)));
    assert!(!grid.in_bounds(&Location::new(-1, 0, 0)));
}

#[test]
fn get_ref_cell_in_and_out_of_bounds() {
    let grid = Grid::new(3, 3, 2);
    let c = grid.get_ref_cell(&Location::new(2, 1, 2)).unwrap();
    assert_eq!(c.loc, Location::new(2, 1, 2));
    assert!(grid.get_ref_cell(&Location::new(3, 0, 0)).is_none());
}

#[test]
fn new_cells_start_open() {
    let grid = Grid::new(2, 2, 2);
    for x in 0..2i8 {
        for y in 0..2i8 {
            for z in 0..2i8 {
                let c = grid.get_ref_cell(&Location::new(x, y, z)).unwrap();
                assert!(!c.is_difficult_terrain);
                assert!(!c.is_obstructed);
            }
        }
    }
}

#[test]
fn neighbors_iter_corner_and_center() {
    let grid = Grid::new(3, 3, 1);
    let corner: Vec<Location> = grid.neighbors_2d_iter(Location::new(0, 0, 0));
    assert_eq!(corner.len(), 3);
    assert!(corner.contains(&Location::new(1, 0, 0)));
    assert!(corner.contains(&Location::new(0, 0, 1)));
    assert!(corner.contains(&Location::new(1, 0, 1)));
    let center: Vec<Location> = grid.neighbors_2d_iter(Location::new(1, 0, 1));
    assert_eq!(center.len(), 8);
}

#[test]
fn visitable_neighbors_exclude_blocked() {
    let grid = scenario_grid();
    let vs = grid.visitable_neighbors_2d_iter(Location::new(2, 0, 1));
    assert!(!vs.contains(&Location::new(2, 0, 2)));
    assert!(!vs.contains(&Location::new(1, 0, 2)));
    assert!(!vs.contains(&Location::new(3, 0, 2)));
    assert!(!vs.contains(&Location::new(4, 0, 1)));
    assert!(vs.contains(&Location::new(1, 0, 0)));
    assert!(vs.contains(&Location::new(2, 0, 0)));
    assert!(vs.contains(&Location::new(3, 0, 0)));
    assert!(vs.contains(&Location::new(1, 0, 1)));
    assert!(vs.contains(&Location::new(3, 0, 1)));
}

#[test]
fn cell_passability_helpers() {
    let mut grid = Grid::new(3, 3, 1);
    grid.add_cell_boundry_and_adjacent(&Location::new(0, 0, 0), Direction::E, Boundry::Full);
    let c = grid.get_ref_cell(&Location::new(0, 0, 0)).unwrap();
    assert!(!c.is_passable_to_neighbor(&Location::new(1, 0, 0)));
    assert!(c.is_passable_to_neighbor(&Location::new(0, 0, 1)));
    assert_eq!(c.cost_to_neighbor(&Location::new(1, 0, 0)), 1);
    assert_eq!(c.cost_to_neighbor(&Location::new(0, 0, 1)), 1);
}

#[test]
fn vertical_moves_use_direct_edge_rule() {
    let mut grid = Grid::new(3, 3, 3);
    let a = Location::new(1, 0, 1);
    assert_eq!(
        grid.try_get_passable_neighbor(&a, &Direction::U),
        Some(Location::new(1, 1, 1))
    );
    grid.add_cell_boundry_and_adjacent(&a, Direction::U, Boundry::Full);
    assert_eq!(grid.try_get_passable_neighbor(&a, &Direction::U), None);
    assert_eq!(
        grid.try_get_passable_neighbor(&Location::new(1, 1, 1), &Direction::D),
        None
    );
}

#[test]
fn compound_vertical_diagonal_is_direct_edge_only() {
    let mut grid = Grid::new(3, 3, 3);
    let a = Location::new(1, 0, 1);
    // Wall off both planar flanks of the upward north-east move; the
    // compound direction still passes, since only its direct edge counts.
    grid.add_cell_boundry_and_adjacent(&a, Direction::N, Boundry::Full);
    grid.add_cell_boundry_and_adjacent(&a, Direction::E, Boundry::Full);
    assert_eq!(
        grid.try_get_passable_neighbor(&a, &Direction::UNE),
        Some(Location::new(2, 1, 0))
    );
    assert_eq!(grid.try_get_passable_neighbor(&a, &Direction::NE), None);
}

#[test]
fn moves_out_of_bounds_are_none() {
    let grid = Grid::new(2, 2, 1);
    assert_eq!(grid.try_get_passable_neighbor(&Location::new(0, 0, 0), &Direction::W), None);
    assert_eq!(grid.try_get_passable_neighbor(&Location::new(0, 0, 0), &Direction::U), None);
    assert_eq!(grid.try_get_passable_neighbor(&Location::new(7, 0, 0), &Direction::E), None);
}
