use flowfield::agent::{Agent2D, Agent3D};
use flowfield::field::{FieldError, FlowField2D, FlowField3D};
use flowfield::grid::{Grid2D, Grid3D, Tile};
use flowfield::UNREACHABLE;

fn step2(p: (usize, usize), d: (i32, i32)) -> (usize, usize) {
    ((p.0 as i32 + d.0) as usize, (p.1 as i32 + d.1) as usize)
}

#[test]
fn target_costs_nothing_and_rests() {
    let mut grid = Grid2D::new(7, 5);
    grid.set_rect_obstacle(2, 1, 1, 3, true);
    let field = FlowField2D::new(&grid, (4, 2));
    assert_eq!(field.get_cost_at(4, 2), 0);
    assert_eq!(field.get_direction_at(4, 2), (0, 0));

    let grid3 = Grid3D::new(4, 4, 4);
    let field3 = FlowField3D::new(&grid3, (3, 0, 2));
    assert_eq!(field3.get_cost_at(3, 0, 2), 0);
    assert_eq!(field3.get_direction_at(3, 0, 2), (0, 0, 0));
}

#[test]
fn every_step_descends() {
    let mut grid = Grid2D::new(8, 6);
    grid.set_rect_obstacle(3, 0, 1, 5, true);
    grid.set_obstacle(6, 3, true);
    let target = (6, 1);
    let field = FlowField2D::new(&grid, target);
    for y in 0..6 {
        for x in 0..8 {
            if (x, y) == target || grid.is_obstacle(x as i32, y as i32) {
                continue;
            }
            let c = field.get_cost_at(x, y);
            assert_ne!(c, UNREACHABLE);
            let n = step2((x, y), field.get_direction_at(x, y));
            assert!(n.0 < 8 && n.1 < 6);
            assert!(field.get_cost_at(n.0, n.1) < c);
        }
    }
}

#[test]
fn obstacles_take_no_step() {
    let mut grid = Grid2D::new(6, 6);
    grid.set_rect_obstacle(1, 1, 2, 2, true);
    grid.set_obstacle(5, 0, true);
    let field = FlowField2D::new(&grid, (4, 4));
    for &(x, y) in &[(1, 1), (2, 1), (1, 2), (2, 2), (5, 0)] {
        assert_eq!(field.get_direction_at(x, y), (0, 0));
        assert_eq!(field.get_cost_at(x, y), UNREACHABLE);
    }

    let mut grid3 = Grid3D::new(3, 3, 3);
    grid3.set_obstacle(0, 0, 0, true);
    let field3 = FlowField3D::new(&grid3, (2, 2, 2));
    assert_eq!(field3.get_direction_at(0, 0, 0), (0, 0, 0));
}

#[test]
fn outside_reads_as_wall() {
    for &(w, h) in &[(1usize, 1usize), (3, 2), (10, 10)] {
        let grid = Grid2D::new(w, h);
        assert!(grid.is_obstacle(-1, 0));
        assert!(grid.is_obstacle(0, -1));
        assert!(grid.is_obstacle(w as i32, 0));
        assert!(grid.is_obstacle(0, h as i32));
        assert!(grid.is_obstacle(i32::MIN, i32::MAX));
        assert!(!grid.is_obstacle(0, 0));
        assert!(!grid.is_obstacle(w as i32 - 1, h as i32 - 1));
    }
    let grid3 = Grid3D::new(2, 3, 4);
    assert!(grid3.is_obstacle(-1, 0, 0));
    assert!(grid3.is_obstacle(0, -1, 0));
    assert!(grid3.is_obstacle(0, 0, -1));
    assert!(grid3.is_obstacle(2, 0, 0));
    assert!(grid3.is_obstacle(0, 3, 0));
    assert!(grid3.is_obstacle(0, 0, 4));
    assert!(!grid3.is_obstacle(1, 2, 3));
    let empty = Grid2D::new(0, 0);
    assert!(empty.is_obstacle(0, 0));
}

#[test]
fn building_twice_gives_the_same_field() {
    let mut grid = Grid2D::new(9, 7);
    grid.set_rect_obstacle(2, 2, 5, 1, true);
    let a = FlowField2D::new(&grid, (4, 5));
    let b = FlowField2D::new(&grid, (4, 5));
    assert_eq!(a.costs, b.costs);
    assert_eq!(a.steps, b.steps);

    let mut grid3 = Grid3D::new(4, 3, 5);
    grid3.set_cuboid_obstacle(1, 0, 2, 2, 3, 1, true);
    let c = FlowField3D::new(&grid3, (0, 1, 4));
    let d = FlowField3D::new(&grid3, (0, 1, 4));
    assert_eq!(c.costs, d.costs);
    assert_eq!(c.steps, d.steps);
}

#[test]
fn wall_with_one_gap_funnels_through_it() {
    let mut grid = Grid2D::new(10, 10);
    grid.set_rect_obstacle(5, 0, 1, 10, true);
    grid.set_obstacle(5, 7, false);
    let target = (8, 2);
    let field = FlowField2D::new(&grid, target);
    for y in 0..10 {
        for x in 0..5 {
            let mut p = (x, y);
            let mut cost = field.get_cost_at(p.0, p.1);
            let mut crossed_at_gap = false;
            while p != target {
                let n = step2(p, field.get_direction_at(p.0, p.1));
                assert!(!grid.is_obstacle(n.0 as i32, n.1 as i32));
                if p.0 < 5 && n.0 >= 5 {
                    assert_eq!(n, (5, 7));
                    crossed_at_gap = true;
                }
                let next_cost = field.get_cost_at(n.0, n.1);
                assert!(next_cost < cost);
                cost = next_cost;
                p = n;
            }
            assert!(crossed_at_gap);
        }
    }
    assert_eq!(field.get_cost_at(5, 7), 62);
    assert!(field.get_cost_at(0, 7) > field.get_cost_at(4, 7));
}

#[test]
fn enclosed_box_is_unreachable() {
    let mut grid = Grid3D::new(6, 6, 6);
    grid.set_cuboid_obstacle(1, 1, 1, 4, 4, 4, true);
    grid.set_cuboid_obstacle(2, 2, 2, 2, 2, 2, false);
    let field = FlowField3D::new(&grid, (0, 0, 0));
    for z in 2..4 {
        for y in 2..4 {
            for x in 2..4 {
                assert!(!grid.is_obstacle(x as i32, y as i32, z as i32));
                assert_eq!(field.get_cost_at(x, y, z), UNREACHABLE);
                assert_eq!(field.get_direction_at(x, y, z), (0, 0, 0));
            }
        }
    }
    assert_ne!(field.get_cost_at(5, 5, 5), UNREACHABLE);
}

#[test]
fn step_weights_by_axes_changed() {
    let grid = Grid3D::new(3, 3, 3);
    let field = FlowField3D::new(&grid, (1, 1, 1));
    assert_eq!(field.get_cost_at(1, 1, 0), 10);
    assert_eq!(field.get_cost_at(0, 1, 0), 14);
    assert_eq!(field.get_cost_at(0, 0, 0), 17);
    assert_eq!(field.get_direction_at(0, 0, 0), (1, 1, 1));
    assert_eq!(field.get_direction_at(1, 1, 2), (0, 0, -1));
    assert_eq!(field.get_direction_at(2, 1, 0), (-1, 0, 1));

    let grid2 = Grid2D::new(3, 3);
    let field2 = FlowField2D::new(&grid2, (1, 1));
    assert_eq!(field2.get_cost_at(1, 0), 10);
    assert_eq!(field2.get_cost_at(2, 2), 14);
    assert_eq!(field2.get_direction_at(0, 1), (1, 0));
}

#[test]
fn longer_detour_costs_add_up() {
    let grid = Grid2D::new(10, 3);
    let field = FlowField2D::new(&grid, (0, 0));
    assert_eq!(field.get_cost_at(9, 0), 90);
    assert_eq!(field.get_cost_at(9, 2), 2 * 14 + 7 * 10);
    assert_eq!(field.get_direction_at(9, 2), (-1, -1));
}

#[test]
fn ties_go_to_the_earlier_offset() {
    let mut grid = Grid2D::new(3, 3);
    grid.set_obstacle(1, 1, true);
    let field = FlowField2D::new(&grid, (0, 0));
    assert_eq!(field.get_cost_at(1, 2), 24);
    assert_eq!(field.get_cost_at(2, 1), 24);
    assert_eq!(field.get_cost_at(2, 2), 34);
    assert_eq!(field.get_direction_at(2, 2), (-1, 0));
}

#[test]
fn single_cell_grid() {
    let grid = Grid2D::new(1, 1);
    let field = FlowField2D::new(&grid, (0, 0));
    assert_eq!(field.get_cost_at(0, 0), 0);
    assert_eq!(field.get_direction_at(0, 0), (0, 0));
}

#[test]
fn rejected_targets() {
    let mut grid = Grid2D::new(4, 4);
    grid.set_obstacle(2, 3, true);
    assert!(matches!(FlowField2D::try_new(&grid, (4, 0)), Err(FieldError::TargetOutOfBounds)));
    assert!(matches!(FlowField2D::try_new(&grid, (0, 9)), Err(FieldError::TargetOutOfBounds)));
    assert!(matches!(FlowField2D::try_new(&grid, (2, 3)), Err(FieldError::TargetOnObstacle)));
    let ok = FlowField2D::try_new(&grid, (0, 0));
    assert!(ok.is_ok());
    if let Ok(field) = ok {
        assert_eq!(field.get_cost_at(3, 3), 42);
    }

    let mut grid3 = Grid3D::new(2, 2, 2);
    grid3.set_obstacle(1, 1, 1, true);
    assert!(matches!(FlowField3D::try_new(&grid3, (0, 0, 2)), Err(FieldError::TargetOutOfBounds)));
    assert!(matches!(FlowField3D::try_new(&grid3, (1, 1, 1)), Err(FieldError::TargetOnObstacle)));
    assert!(FlowField3D::try_new(&grid3, (0, 0, 0)).is_ok());
}

#[test]
fn regions_are_clamped_to_the_grid() {
    let mut grid = Grid2D::new(4, 3);
    grid.set_rect_obstacle(2, 1, 100, 100, true);
    for y in 0..3 {
        for x in 0..4 {
            assert_eq!(grid.is_obstacle(x, y), x >= 2 && y >= 1);
        }
    }
    grid.set_rect_obstacle(9, 9, 2, 2, false);
    grid.set_rect_obstacle(usize::MAX, 0, usize::MAX, 1, false);
    assert!(grid.is_obstacle(3, 2));
    grid.set_rect_obstacle(0, 0, 4, 3, false);
    assert!(!grid.is_obstacle(3, 2));

    let mut grid3 = Grid3D::new(3, 3, 3);
    grid3.set_cuboid_obstacle(1, 1, 1, usize::MAX, 5, 5, true);
    for z in 0..3 {
        for y in 0..3 {
            for x in 0..3 {
                assert_eq!(grid3.is_obstacle(x, y, z), x >= 1 && y >= 1 && z >= 1);
            }
        }
    }
    assert_eq!(grid3.idx(1, 2, 1), 9 + 6 + 1);
}

#[test]
fn agents_read_the_field_in_place() {
    let grid = Grid2D::new(5, 5);
    let field = FlowField2D::new(&grid, (4, 4));
    let mut agent = Agent2D::new(1, 4);
    assert_eq!(agent.target_pos(&grid, &field), (1, 0));
    assert_eq!((agent.x, agent.y), (1, 4));

    let grid3 = Grid3D::new(3, 3, 3);
    let field3 = FlowField3D::new(&grid3, (2, 2, 2));
    let mut agent3 = Agent3D::new(0, 0, 0);
    assert_eq!(agent3.target_pos(&grid3, &field3), (1, 1, 1));
    assert_eq!((agent3.x, agent3.y, agent3.z), (0, 0, 0));
}

#[test]
fn fresh_tiles_are_free() {
    let tile = Tile::new();
    assert!(!tile.is_obstacle);
    let grid = Grid3D::new(2, 2, 2);
    assert_eq!(grid.tiles.len(), 8);
    assert!(grid.tiles.iter().all(|t| !t.is_obstacle));
}
