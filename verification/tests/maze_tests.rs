use maze::cell::Cell;
use maze::maze::Maze;

#[test]
fn test_generate_maze() {
    let width = 10;
    let height = 10;
    let maze = Maze::generate_maze(width, height);

    assert_eq!(maze.width, width);
    assert_eq!(maze.height, height);
    assert_eq!(maze.cells.len(), height);
    assert_eq!(maze.cells[0].len(), width);

    for row in &maze.cells {
        for cell in row {
            assert!(cell.visited, "All cells should be visited in a perfect maze.");
        }
    }

    assert_eq!(maze.path.len(), width * height, "The path should cover the entire maze.");
}

#[test]
fn test_get_neighbours() {
    let maze = Maze::new(5, 5);

    // Cell in the center (should have 4 neighbors)
    let neighbours = maze.get_neighbours(2, 2);
    let expected = vec![(1, 2), (3, 2), (2, 1), (2, 3)];
    assert_eq!(neighbours, expected, "The center cell should have 4 neighbors");

    // Top-left corner (should have 2 neighbors)
    let neighbours = maze.get_neighbours(0, 0);
    let expected = vec![(1, 0), (0, 1)];
    assert_eq!(neighbours, expected, "The top-left cell should have 2 neighbors");

    // Bottom-right corner (should have 2 neighbors)
    let neighbours = maze.get_neighbours(4, 4);
    let expected = vec![(3, 4), (4, 3)];
    assert_eq!(neighbours, expected, "The bottom-right cell should have 2 neighbors");

    // Left edge (should have 3 neighbors)
    let neighbours = maze.get_neighbours(2, 0);
    let expected = vec![(1, 0), (3, 0), (2, 1)];
    assert_eq!(neighbours, expected, "A left-edge cell should have 3 neighbors");

    // Bottom edge (should have 3 neighbors)
    let neighbours = maze.get_neighbours(4, 2);
    let expected = vec![(3, 2), (4, 1), (4, 3)];
    assert_eq!(neighbours, expected, "A bottom-edge cell should have 3 neighbors");
}

#[test]
fn test_get_non_visited_neighbours() {
    let mut maze = Maze::new(5, 5);

    // Initially, all cells are unvisited, so all neighbors should be returned.
    let non_visited = maze.get_non_visited_neighbours(2, 2);
    let expected = vec![(1, 2), (3, 2), (2, 1), (2, 3)];
    assert_eq!(non_visited, expected, "All neighbors should be unvisited at the start");

    // Mark (1,2) as visited
    maze.cells[1][2].visited = true;
    let non_visited = maze.get_non_visited_neighbours(2, 2);
    let expected = vec![(3, 2), (2, 1), (2, 3)];
    assert_eq!(non_visited, expected, "Cell (1,2) should no longer be in the list");

    // Mark all neighbors as visited
    maze.cells[3][2].visited = true;
    maze.cells[2][1].visited = true;
    maze.cells[2][3].visited = true;
    let non_visited = maze.get_non_visited_neighbours(2, 2);
    assert!(non_visited.is_empty(), "There should be no unvisited neighbors");

    // Test on a corner (0,0), initially all neighbors should be unvisited
    let non_visited = maze.get_non_visited_neighbours(0, 0);
    let expected = vec![(1, 0), (0, 1)];
    assert_eq!(non_visited, expected, "The top-left corner should have 2 unvisited neighbors");

    // Mark (1,0) as visited
    maze.cells[1][0].visited = true;
    let non_visited = maze.get_non_visited_neighbours(0, 0);
    let expected = vec![(0, 1)];
    assert_eq!(non_visited, expected, "Only (0,1) should be unvisited now");

    // Mark (0,1) as visited
    maze.cells[0][1].visited = true;
    let non_visited = maze.get_non_visited_neighbours(0, 0);
    assert!(non_visited.is_empty(), "No unvisited neighbors should be left for (0,0)");
}

#[test]
fn test_open_adjacent_wall_horizontal() {
    let mut maze = Maze::new(5, 5);

    // Open wall between (2,2) and (2,3)
    maze.open_adjacent_wall((2, 2), (2, 3));

    // Check walls
    assert!(!maze.cells[2][2].right_wall, "Right wall of (2,2) should be open");
    assert!(!maze.cells[2][3].left_wall, "Left wall of (2,3) should be open");
}

#[test]
fn test_open_adjacent_wall_vertical() {
    let mut maze = Maze::new(5, 5);

    // Open wall between (2,2) and (3,2)
    maze.open_adjacent_wall((2, 2), (3, 2));

    // Check walls
    assert!(!maze.cells[2][2].bottom_wall, "Bottom wall of (2,2) should be open");
    assert!(!maze.cells[3][2].top_wall, "Top wall of (3,2) should be open");
}

#[test]
fn test_open_adjacent_wall_non_adjacent() {
    let mut maze = Maze::new(5, 5);

    // Attempt to open wall between non-adjacent cells (should not change anything)
    maze.open_adjacent_wall((2, 2), (4, 2));

    // Check that walls remain closed
    assert!(maze.cells[2][2].bottom_wall, "Bottom wall of (2,2) should remain closed");
    assert!(maze.cells[4][2].top_wall, "Top wall of (4,2) should remain closed");
}

#[test]
fn test_open_adjacent_wall_same_cell() {
    let mut maze = Maze::new(5, 5);

    // Opening wall between the same cell should do nothing
    maze.open_adjacent_wall((2, 2), (2, 2));

    // Ensure all walls remain closed
    assert!(maze.cells[2][2].top_wall, "Top wall of (2,2) should remain closed");
    assert!(maze.cells[2][2].bottom_wall, "Bottom wall of (2,2) should remain closed");
    assert!(maze.cells[2][2].left_wall, "Left wall of (2,2) should remain closed");
    assert!(maze.cells[2][2].right_wall, "Right wall of (2,2) should remain closed");
}

#[test]
fn test_open_adjacent_wall_out_of_bounds() {
    let mut maze = Maze::new(5, 5);

    // An adjacent pair reaching outside the grid is a no-op, not a fault.
    maze.open_adjacent_wall((4, 4), (5, 4));

    assert!(maze.cells[4][4].bottom_wall, "Bottom wall of (4,4) should remain closed");
    assert!(maze.cells[4][4].right_wall, "Right wall of (4,4) should remain closed");
}

#[test]
fn test_new_maze_initial_state() {
    let maze = Maze::new(3, 2);

    assert_eq!(maze.width, 3);
    assert_eq!(maze.height, 2);
    assert_eq!(maze.cells.len(), 2);
    assert_eq!(maze.current_cell, (0, 0));
    assert_eq!(maze.exit, (1, 2));
    assert!(maze.path.is_empty());
    for row in &maze.cells {
        assert_eq!(row.len(), 3);
        for cell in row {
            assert!(!cell.visited);
            assert!(cell.top_wall);
            assert!(cell.bottom_wall);
            assert!(cell.left_wall);
            assert!(cell.right_wall);
        }
    }
}

#[test]
fn test_cell_default_is_fully_walled() {
    let cell = Cell::default();
    assert!(!cell.visited);
    assert!(cell.top_wall);
    assert!(cell.bottom_wall);
    assert!(cell.left_wall);
    assert!(cell.right_wall);
}

#[test]
fn test_reset_visited_cells_clears_only_visited() {
    let mut maze = Maze::generate_maze(4, 4);
    let walls_before: Vec<Vec<(bool, bool, bool, bool)>> = maze
        .cells
        .iter()
        .map(|row| {
            row.iter()
                .map(|c| (c.top_wall, c.bottom_wall, c.left_wall, c.right_wall))
                .collect()
        })
        .collect();

    maze.reset_visited_cells();

    for (i, row) in maze.cells.iter().enumerate() {
        for (j, cell) in row.iter().enumerate() {
            assert!(!cell.visited);
            let (top, bottom, left, right) = walls_before[i][j];
            assert_eq!(cell.top_wall, top);
            assert_eq!(cell.bottom_wall, bottom);
            assert_eq!(cell.left_wall, left);
            assert_eq!(cell.right_wall, right);
        }
    }
}

/// Counts the open wall pairs of a maze, each at its left or upper cell.
fn open_pair_count(maze: &Maze) -> usize {
    let mut count = 0;
    for i in 0..maze.height {
        for j in 0..maze.width {
            if j + 1 < maze.width && !maze.cells[i][j].right_wall {
                count += 1;
            }
            if i + 1 < maze.height && !maze.cells[i][j].bottom_wall {
                count += 1;
            }
        }
    }
    count
}

#[test]
fn test_generated_maze_is_spanning_tree() {
    // exactly w*h - 1 open wall pairs, consistent walls, and a flood fill
    // from the start that reaches every cell: a tree spanning the grid
    let maze = Maze::generate_maze(7, 5);
    let (w, h) = (maze.width, maze.height);

    assert_eq!(open_pair_count(&maze), w * h - 1);

    for i in 0..h {
        for j in 0..w {
            if j + 1 < w {
                assert_eq!(maze.cells[i][j].right_wall, maze.cells[i][j + 1].left_wall);
            }
            if i + 1 < h {
                assert_eq!(maze.cells[i][j].bottom_wall, maze.cells[i + 1][j].top_wall);
            }
        }
    }

    let mut seen = vec![vec![false; w]; h];
    let mut todo = vec![(0usize, 0usize)];
    seen[0][0] = true;
    let mut reached = 0;
    while let Some((i, j)) = todo.pop() {
        reached += 1;
        if j + 1 < w && !maze.cells[i][j].right_wall && !seen[i][j + 1] {
            seen[i][j + 1] = true;
            todo.push((i, j + 1));
        }
        if j > 0 && !maze.cells[i][j].left_wall && !seen[i][j - 1] {
            seen[i][j - 1] = true;
            todo.push((i, j - 1));
        }
        if i + 1 < h && !maze.cells[i][j].bottom_wall && !seen[i + 1][j] {
            seen[i + 1][j] = true;
            todo.push((i + 1, j));
        }
        if i > 0 && !maze.cells[i][j].top_wall && !seen[i - 1][j] {
            seen[i - 1][j] = true;
            todo.push((i - 1, j));
        }
    }
    assert_eq!(reached, w * h, "Flood fill from the start should reach every cell");
}

#[test]
fn test_generate_smallest_maze() {
    let maze = Maze::generate_maze(1, 1);
    assert_eq!(maze.path.len(), 1);
    assert_eq!(open_pair_count(&maze), 0);
    assert!(maze.cells[0][0].visited);
    assert_eq!(maze.exit, (0, 0));
}
