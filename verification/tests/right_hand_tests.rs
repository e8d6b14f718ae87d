use maze::maze::Maze;
use maze::right_hand::{get_next_cell, Direction, RightHand};

fn create_test_maze() -> Maze {
    let mut maze = Maze::new(3, 3);

    // Remove walls to create a simple path
    maze.cells[0][0].right_wall = false;
    maze.cells[0][1].left_wall = false;
    maze.cells[0][1].bottom_wall = false;
    maze.cells[1][1].top_wall = false;
    maze.cells[1][1].right_wall = false;
    maze.cells[1][2].left_wall = false;
    maze.cells[1][2].bottom_wall = false;
    maze.cells[2][2].top_wall = false;

    maze
}

#[test]
fn test_right_hand_initialization() {
    let maze = create_test_maze();
    let solver = RightHand::new(maze);

    assert_eq!(solver.current_direction, Direction::North);
}

#[test]
fn test_right_hand_step() {
    let maze = create_test_maze();
    let mut solver = RightHand::new(maze);

    // Initial position (0,0)
    assert_eq!(solver.maze.current_cell, (0, 0));

    solver.step();

    // After one step, should move to (0,1)
    assert_eq!(solver.maze.current_cell, (0, 1));
}

#[test]
fn test_right_hand_execution() {
    let maze = create_test_maze();
    let mut solver = RightHand::new(maze);

    solver.automatic_execution();

    // The solver should reach the exit (2,2)
    assert_eq!(solver.maze.current_cell, (2, 2));
}

#[test]
fn test_get_next_cell() {
    let maze = create_test_maze();

    let ((next_x, next_y), next_dir) = get_next_cell(&maze, Direction::North);

    assert_eq!((next_x, next_y), (0, 1));
    assert_eq!(next_dir, Direction::East);
}

#[test]
fn test_step_turns_east_from_start() {
    // One step from ((0,0), North) on the manually carved path turns right
    // towards the open wall: position (0,1), facing east.
    let maze = create_test_maze();
    let mut solver = RightHand::new(maze);

    solver.step();

    assert_eq!(solver.maze.current_cell, (0, 1));
    assert_eq!(solver.current_direction, Direction::East);
}

#[test]
fn test_execution_from_every_orientation() {
    // On a generated maze the wall follower reaches the exit from any
    // starting orientation.
    for dir in [Direction::North, Direction::East, Direction::South, Direction::West] {
        let maze = Maze::generate_maze(6, 4);
        let exit = maze.exit;
        let mut solver = RightHand::new(maze);
        solver.current_direction = dir;

        solver.automatic_execution();

        assert_eq!(solver.maze.current_cell, exit);
    }
}

#[test]
fn test_step_in_enclosed_cell_stays_put() {
    // A fully walled cell leaves the traveler in place, direction unchanged.
    let maze = Maze::new(3, 3);
    let mut solver = RightHand::new(maze);

    solver.step();

    assert_eq!(solver.maze.current_cell, (0, 0));
    assert_eq!(solver.current_direction, Direction::North);
}

#[test]
fn test_reset_after_execution() {
    let maze = Maze::generate_maze(5, 5);
    let walls_before: Vec<Vec<(bool, bool, bool, bool)>> = maze
        .cells
        .iter()
        .map(|row| {
            row.iter()
                .map(|c| (c.top_wall, c.bottom_wall, c.left_wall, c.right_wall))
                .collect()
        })
        .collect();
    let mut solver = RightHand::new(maze);

    solver.automatic_execution();
    assert_eq!(solver.maze.current_cell, (4, 4));

    solver.reset();

    assert_eq!(solver.maze.current_cell, (0, 0));
    assert_eq!(solver.current_direction, Direction::North);
    for (i, row) in solver.maze.cells.iter().enumerate() {
        for (j, cell) in row.iter().enumerate() {
            assert!(!cell.visited);
            let (top, bottom, left, right) = walls_before[i][j];
            assert_eq!(cell.top_wall, top);
            assert_eq!(cell.bottom_wall, bottom);
            assert_eq!(cell.left_wall, left);
            assert_eq!(cell.right_wall, right);
        }
    }
}
