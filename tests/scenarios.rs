use flowfield::agent::Agent2D;
use flowfield::field::FlowField2D;
use flowfield::grid::Grid2D;

#[test]
fn directional_movement() {
    let grid = Grid2D::new(10, 10);
    let field = FlowField2D::new(&grid, (5, 5));
    let agent = Agent2D::new(0, 0);
    let result = field.get_direction_at(agent.x, agent.y);
    assert_eq!(result, (1, 1));
}

#[test]
fn cost_function() {
    let grid = Grid2D::new(10, 10);
    let field = FlowField2D::new(&grid, (5, 5));
    let result = field.get_cost_at(0, 0);
    assert_eq!(result, 70);
}
