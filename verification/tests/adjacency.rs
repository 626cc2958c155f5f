use wordsearcher::Grid;

fn grid_of(width: usize, height: usize) -> Grid {
    let lines: Vec<Vec<char>> = (0..height).map(|_| vec!['.'; width]).collect();
    Grid::from_vec(lines).unwrap()
}

fn is_corner(grid: &Grid, index: usize) -> bool {
    let [x, y] = grid.get_coord(index);
    (x == 0 || x == grid.width - 1) && (y == 0 || y == grid.height - 1)
}

fn on_border(grid: &Grid, index: usize) -> bool {
    let [x, y] = grid.get_coord(index);
    x == 0 || x == grid.width - 1 || y == 0 || y == grid.height - 1
}

#[test]
fn interior_neighbours_run_clockwise_from_the_east() {
    let grid = grid_of(3, 3);
    assert_eq!(grid.neighbours(4), vec![5, 8, 7, 6, 3, 0, 1, 2]);
}

#[test]
fn corner_neighbours_keep_the_order() {
    let grid = grid_of(3, 3);
    assert_eq!(grid.neighbours(0), vec![1, 4, 3]);
    assert_eq!(grid.neighbours(2), vec![5, 4, 1]);
    assert_eq!(grid.neighbours(6), vec![7, 3, 4]);
    assert_eq!(grid.neighbours(8), vec![7, 4, 5]);
}

#[test]
fn border_neighbours_keep_the_order() {
    let grid = grid_of(3, 3);
    assert_eq!(grid.neighbours(1), vec![2, 5, 4, 3, 0]);
    assert_eq!(grid.neighbours(3), vec![4, 7, 6, 0, 1]);
    assert_eq!(grid.neighbours(5), vec![8, 7, 4, 1, 2]);
    assert_eq!(grid.neighbours(7), vec![8, 6, 3, 4, 5]);
}

#[test]
fn neighbours_in_a_wide_grid() {
    let grid = grid_of(5, 4);
    assert_eq!(grid.neighbours(7), vec![8, 13, 12, 11, 6, 1, 2, 3]);
    assert_eq!(grid.neighbours(4), vec![9, 8, 3]);
    assert_eq!(grid.neighbours(15), vec![16, 10, 11]);
    assert_eq!(grid.neighbours(19), vec![18, 13, 14]);
}

#[test]
fn neighbour_counts_by_position() {
    for (width, height) in [(2, 2), (2, 5), (3, 3), (4, 3), (6, 2), (7, 5)] {
        let grid = grid_of(width, height);
        for index in 0..width * height {
            let count = grid.neighbours(index).len();
            if is_corner(&grid, index) {
                assert_eq!(count, 3);
            } else if on_border(&grid, index) {
                assert_eq!(count, 5);
            } else {
                assert_eq!(count, 8);
            }
        }
    }
}

#[test]
fn neighbours_are_cells_of_the_grid() {
    for (width, height) in [(1, 1), (1, 4), (4, 1), (2, 2), (3, 5), (6, 4)] {
        let grid = grid_of(width, height);
        for index in 0..width * height {
            for neighbour in grid.neighbours(index) {
                assert!(neighbour < width * height);
                assert_ne!(neighbour, index);
            }
        }
    }
}

#[test]
fn neighbours_are_one_step_away() {
    let grid = grid_of(5, 4);
    for index in 0..20 {
        let [x, y] = grid.get_coord(index);
        for neighbour in grid.neighbours(index) {
            let [nx, ny] = grid.get_coord(neighbour);
            assert!(x.abs_diff(nx) <= 1);
            assert!(y.abs_diff(ny) <= 1);
        }
    }
}

#[test]
fn single_cell_has_no_neighbours() {
    let grid = grid_of(1, 1);
    assert_eq!(grid.neighbours(0), Vec::<usize>::new());
}

#[test]
fn neighbours_in_a_single_row() {
    let grid = grid_of(3, 1);
    assert_eq!(grid.neighbours(0), vec![1]);
    assert_eq!(grid.neighbours(1), vec![2, 0]);
    assert_eq!(grid.neighbours(2), vec![1]);
}

#[test]
fn neighbours_in_a_single_column() {
    let grid = grid_of(1, 3);
    assert_eq!(grid.neighbours(0), vec![1]);
    assert_eq!(grid.neighbours(1), vec![2, 0]);
    assert_eq!(grid.neighbours(2), vec![1]);
}
