use pathfinding_graph::grid::{Direction, Grid, LookupError, INFINITY};

fn three_by_three() -> Grid {
    Grid::from(&vec![vec![4, 2, 1], vec![2, 1, 0], vec![3, 4, 7]]).unwrap()
}

fn two_by_three() -> Grid {
    Grid::from(&vec![vec![4, 2, 1], vec![2, 1, 0]]).unwrap()
}

#[test]
fn subtract_below_zero_should_be_max() {
    let coord = Direction::UpLeft.attempt_move((0, 0));

    assert_eq!(0, coord.0);
    assert_eq!(0, coord.1)
}

#[test]
fn add_above_max_should_remain() {
    let coord = Direction::DownRight.attempt_move((usize::MAX, usize::MAX));

    assert_eq!(usize::MAX, coord.0);
    assert_eq!(usize::MAX, coord.1)
}

#[test]
fn up_direction_should_move_coordinate() {
    let coord = Direction::Up.attempt_move((1, 1));

    assert_eq!(0, coord.0);
    assert_eq!(1, coord.1)
}

#[test]
fn down_direction_should_move_coordinate() {
    let coord = Direction::Down.attempt_move((1, 1));

    assert_eq!(2, coord.0);
    assert_eq!(1, coord.1)
}

#[test]
fn left_direction_should_move_coordinate() {
    let coord = Direction::Left.attempt_move((1, 1));

    assert_eq!(1, coord.0);
    assert_eq!(0, coord.1)
}

#[test]
fn right_direction_should_move_coordinate() {
    let coord = Direction::Right.attempt_move((1, 1));

    assert_eq!(1, coord.0);
    assert_eq!(2, coord.1)
}

#[test]
fn up_left_direction_should_move_coordinate() {
    let coord = Direction::UpLeft.attempt_move((1, 1));

    assert_eq!(0, coord.0);
    assert_eq!(0, coord.1)
}

#[test]
fn up_right_direction_should_move_coordinate() {
    let coord = Direction::UpRight.attempt_move((1, 1));

    assert_eq!(0, coord.0);
    assert_eq!(2, coord.1)
}

#[test]
fn down_left_direction_should_move_coordinate() {
    let coord = Direction::DownLeft.attempt_move((1, 1));

    assert_eq!(2, coord.0);
    assert_eq!(0, coord.1)
}

#[test]
fn down_right_direction_should_move_coordinate() {
    let coord = Direction::DownRight.attempt_move((1, 1));

    assert_eq!(2, coord.0);
    assert_eq!(2, coord.1)
}

#[test]
fn move_off_one_axis_keeps_coordinate() {
    assert_eq!((0, 6), Direction::UpRight.attempt_move((0, 5)));
    assert_eq!((0, 4), Direction::UpLeft.attempt_move((0, 5)));
    assert_eq!((6, 0), Direction::DownLeft.attempt_move((5, 0)));
    assert_eq!((usize::MAX, 3), Direction::Down.attempt_move((usize::MAX, 3)));
}

#[test]
fn get_cost_with_node_id_left_upper() {
    let grid = three_by_three();

    assert_eq!(4, grid.cost(0).unwrap());
    assert_eq!(9, grid.size);
}

#[test]
fn get_cost_with_node_id_center() {
    let grid = three_by_three();

    assert_eq!(1, grid.cost(4).unwrap());
}

#[test]
fn get_cost_with_node_id_right_lower() {
    let grid = three_by_three();

    assert_eq!(7, grid.cost(8).unwrap());
}

#[test]
fn get_cost_outside_is_out_of_bounds() {
    let grid = three_by_three();

    assert_eq!(Err(LookupError::OutOfBounds), grid.cost(9));
}

#[test]
fn node_id_should_return_center_node_id() {
    let grid = three_by_three();

    assert_eq!(4, grid.node_id((1, 1)).unwrap());
}

#[test]
fn node_id_should_return_left_upper_node_id() {
    let grid = three_by_three();

    assert_eq!(0, grid.node_id((0, 0)).unwrap());
}

#[test]
fn node_id_should_return_right_lower_node_id() {
    let grid = three_by_three();

    assert_eq!(8, grid.node_id((2, 2)).unwrap());
}

#[test]
fn node_id_outside_is_out_of_bounds() {
    let grid = three_by_three();

    assert_eq!(Err(LookupError::OutOfBounds), grid.node_id((2, 3)));
}

#[test]
fn coords_invert_node_id_on_a_wide_grid() {
    let grid = two_by_three();

    assert_eq!(Ok((1, 2)), grid.coords(5));
    assert_eq!(Ok(5), grid.node_id((1, 2)));
    assert_eq!(Ok(0), grid.cost(5));
    assert_eq!(Err(LookupError::OutOfBounds), grid.coords(6));
}

#[test]
fn coord_should_be_within() {
    let coord: (usize, usize) = (0, 0);

    let grid = two_by_three();

    assert!(grid.within(coord));
    assert!(!grid.outside(coord));
}

#[test]
fn coord_row_should_be_outside() {
    let coord: (usize, usize) = (2, 0);

    let grid = two_by_three();

    assert!(grid.outside(coord));
}

#[test]
fn coord_col_should_be_outside() {
    let coord: (usize, usize) = (0, 3);

    let grid = two_by_three();

    assert!(grid.outside(coord));
}

#[test]
fn from_should_create_grid() {
    let grid_matrix = vec![
        vec![0, 4, 0, 0, 0, 0, 0, 8, 0],
        vec![4, 0, 8, 0, 0, 0, 0, 11, 0],
        vec![0, 8, 0, 7, 0, 4, 0, 0, 2],
        vec![0, 0, 7, 0, 9, 14, 0, 0, 0],
        vec![0, 0, 0, 9, 0, 10, 0, 0, 0],
        vec![0, 0, 4, 14, 10, 0, 2, 0, 0],
        vec![0, 0, 0, 0, 0, 2, 0, 1, 6],
        vec![8, 11, 0, 0, 0, 0, 1, 0, 7],
        vec![0, 0, 2, 0, 0, 0, 6, 7, 0],
    ];

    let grid = Grid::from(&grid_matrix).unwrap();
    assert_eq!(9, grid.height);
    assert_eq!(9, grid.width);
    assert_eq!(7, grid.costs[8][7]);
    assert_eq!(81, grid.size);
}

#[test]
fn from_with_no_rows_is_empty_grid() {
    assert_eq!(Some(LookupError::EmptyGrid), Grid::from(&vec![]).err());
}

#[test]
fn from_with_no_columns_is_empty_grid() {
    assert_eq!(Some(LookupError::EmptyGrid), Grid::from(&vec![vec![]]).err());
}

#[test]
fn from_with_longer_row_is_ragged() {
    assert_eq!(
        Some(LookupError::RaggedGrid),
        Grid::from(&vec![vec![1, 2], vec![1, 2, 3]]).err()
    );
}

#[test]
fn from_pads_shorter_rows_with_zero() {
    let grid = Grid::from(&vec![vec![1, 2, 3], vec![5]]).unwrap();

    assert_eq!(vec![5, 0, 0], grid.costs[1]);
    assert_eq!(INFINITY, u64::MAX);
}
