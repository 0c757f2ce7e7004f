use maze::{carve, carve_step, direction, maze, new_grid, Direction, MazeError, Point};
use maze::{DOWN, LEFT, RIGHT, UP};

const BITS: [u8; 4] = [UP, RIGHT, DOWN, LEFT];
const OPPOSITE: [u8; 4] = [DOWN, LEFT, UP, RIGHT];
const DX: [i64; 4] = [0, 1, 0, -1];
const DY: [i64; 4] = [1, 0, -1, 0];

fn inside(width: i64, height: i64, x: i64, y: i64) -> bool {
    0 <= x && x < width && 0 <= y && y < height
}

fn has_shape(grid: &Vec<Vec<u8>>, width: i64, height: i64) -> bool {
    grid.len() as i64 == height && grid.iter().all(|row| row.len() as i64 == width)
}

fn is_symmetric(grid: &Vec<Vec<u8>>, width: i64, height: i64) -> bool {
    for y in 0..height {
        for x in 0..width {
            for d in 0..4 {
                let (nx, ny) = (x + DX[d], y + DY[d]);
                if inside(width, height, nx, ny) {
                    let here = grid[y as usize][x as usize] & BITS[d] != 0;
                    let there = grid[ny as usize][nx as usize] & OPPOSITE[d] != 0;
                    if here != there {
                        return false;
                    }
                }
            }
        }
    }
    true
}

fn stays_inside(grid: &Vec<Vec<u8>>, width: i64, height: i64) -> bool {
    for y in 0..height {
        for x in 0..width {
            for d in 0..4 {
                let open = grid[y as usize][x as usize] & BITS[d] != 0;
                let entry_mark = x == 0 && y == 0 && d == 2;
                if open && !entry_mark && !inside(width, height, x + DX[d], y + DY[d]) {
                    return false;
                }
            }
        }
    }
    true
}

fn passage_count(grid: &Vec<Vec<u8>>, width: i64, height: i64) -> i64 {
    let mut count = 0;
    for y in 0..height {
        for x in 0..width {
            for d in 0..2 {
                let open = grid[y as usize][x as usize] & BITS[d] != 0;
                if open && inside(width, height, x + DX[d], y + DY[d]) {
                    count += 1;
                }
            }
        }
    }
    count
}

fn reached_from_first(grid: &Vec<Vec<u8>>, width: i64, height: i64) -> i64 {
    let mut seen = vec![vec![false; width as usize]; height as usize];
    let mut work = vec![(0i64, 0i64)];
    seen[0][0] = true;
    let mut count = 1;
    while let Some((x, y)) = work.pop() {
        for d in 0..4 {
            let (nx, ny) = (x + DX[d], y + DY[d]);
            let open = grid[y as usize][x as usize] & BITS[d] != 0;
            if open && inside(width, height, nx, ny) && !seen[ny as usize][nx as usize] {
                seen[ny as usize][nx as usize] = true;
                count += 1;
                work.push((nx, ny));
            }
        }
    }
    count
}

fn is_perfect(grid: &Vec<Vec<u8>>, width: i64, height: i64) -> bool {
    has_shape(grid, width, height)
        && grid[0][0] & DOWN != 0
        && grid.iter().all(|row| row.iter().all(|&cell| cell != 0 && cell < 16))
        && is_symmetric(grid, width, height)
        && stays_inside(grid, width, height)
        && reached_from_first(grid, width, height) == width * height
        && passage_count(grid, width, height) == width * height - 1
}

fn run_with_order(width: i64, height: i64, order: &Vec<u8>) -> (Vec<Vec<u8>>, usize, usize) {
    let mut grid = new_grid(width as usize, height as usize);
    grid[0][0] |= DOWN;
    let mut cells = vec![Point { x: 0, y: 0 }];
    let (mut carves, mut pops) = (0, 0);
    while !cells.is_empty() {
        match carve_step(&mut grid, &mut cells, order, width, height) {
            Some(_) => carves += 1,
            None => pops += 1,
        }
    }
    (grid, carves, pops)
}

#[test]
fn passage_bits_are_stable() {
    assert_eq!(UP, 1);
    assert_eq!(RIGHT, 2);
    assert_eq!(DOWN, 4);
    assert_eq!(LEFT, 8);
}

#[test]
fn direction_table_entries() {
    assert_eq!(
        direction(0),
        Direction { passage: UP, opposite: DOWN, delta: Point { x: 0, y: 1 } }
    );
    assert_eq!(
        direction(1),
        Direction { passage: RIGHT, opposite: LEFT, delta: Point { x: 1, y: 0 } }
    );
    assert_eq!(
        direction(2),
        Direction { passage: DOWN, opposite: UP, delta: Point { x: 0, y: -1 } }
    );
    assert_eq!(
        direction(3),
        Direction { passage: LEFT, opposite: RIGHT, delta: Point { x: -1, y: 0 } }
    );
}

#[test]
fn new_grid_is_blank() {
    assert_eq!(new_grid(3, 2), vec![vec![0u8, 0, 0], vec![0u8, 0, 0]]);
    assert_eq!(new_grid(1, 1), vec![vec![0u8]]);
}

#[test]
fn new_grid_without_cells() {
    assert_eq!(new_grid(5, 0), Vec::<Vec<u8>>::new());
    assert_eq!(new_grid(0, 2), vec![Vec::<u8>::new(), Vec::<u8>::new()]);
}

#[test]
fn one_cell_maze_has_only_the_entry_mark() {
    assert_eq!(maze(1, 1), vec![vec![DOWN]]);
    assert_eq!(carve(1, 1), Ok(vec![vec![DOWN]]));
}

#[test]
fn two_cells_in_a_row_share_one_passage() {
    assert_eq!(maze(2, 1), vec![vec![DOWN | RIGHT, LEFT]]);
    assert_eq!(carve(2, 1), Ok(vec![vec![DOWN | RIGHT, LEFT]]));
}

#[test]
fn two_cells_in_a_column_share_one_passage() {
    assert_eq!(maze(1, 2), vec![vec![DOWN | UP], vec![DOWN]]);
}

#[test]
fn carve_rejects_dimensions_that_are_not_positive() {
    assert_eq!(carve(0, 1), Err(MazeError::InvalidDimension));
    assert_eq!(carve(1, 0), Err(MazeError::InvalidDimension));
    assert_eq!(carve(0, 0), Err(MazeError::InvalidDimension));
    assert_eq!(carve(-1, 5), Err(MazeError::InvalidDimension));
    assert_eq!(carve(5, -1), Err(MazeError::InvalidDimension));
    assert_eq!(carve(i64::MIN, i64::MIN), Err(MazeError::InvalidDimension));
}

#[test]
fn carve_rejects_a_cell_count_that_overflows() {
    assert_eq!(carve(i64::MAX, i64::MAX), Err(MazeError::InvalidDimension));
    assert_eq!(carve(1 << 40, 1 << 40), Err(MazeError::InvalidDimension));
}

#[test]
fn carve_accepts_valid_dimensions() {
    let grid = carve(4, 3).unwrap();
    assert!(is_perfect(&grid, 4, 3));
}

#[test]
fn mazes_are_spanning_trees() {
    for &(width, height) in &[(1, 1), (1, 7), (7, 1), (2, 2), (3, 5), (8, 8), (20, 13)] {
        let grid = maze(width, height);
        assert!(has_shape(&grid, width, height));
        assert_eq!(reached_from_first(&grid, width, height), width * height);
        assert_eq!(passage_count(&grid, width, height), width * height - 1);
    }
}

#[test]
fn passages_are_symmetric() {
    for &(width, height) in &[(1, 1), (2, 3), (6, 6), (15, 4)] {
        assert!(is_symmetric(&maze(width, height), width, height));
    }
}

#[test]
fn every_cell_is_visited() {
    for &(width, height) in &[(1, 1), (2, 3), (6, 6), (15, 4)] {
        let grid = maze(width, height);
        assert!(grid.iter().all(|row| row.iter().all(|&cell| cell != 0 && cell < 16)));
    }
}

#[test]
fn only_the_entry_mark_leaves_the_grid() {
    for &(width, height) in &[(1, 1), (2, 3), (6, 6), (15, 4)] {
        let grid = maze(width, height);
        assert!(stays_inside(&grid, width, height));
        assert_ne!(grid[0][0] & DOWN, 0);
    }
}

#[test]
fn two_runs_are_both_perfect() {
    let first = maze(9, 7);
    let second = maze(9, 7);
    assert!(is_perfect(&first, 9, 7));
    assert!(is_perfect(&second, 9, 7));
}

#[test]
fn the_direction_order_is_shuffled() {
    let fixed = run_with_order(8, 8, &vec![0, 1, 2, 3]).0;
    let mut differs = false;
    for _ in 0..20 {
        let grid = maze(8, 8);
        assert!(is_perfect(&grid, 8, 8));
        if grid != fixed {
            differs = true;
        }
    }
    assert!(differs);
}

#[test]
fn step_carves_the_first_free_direction() {
    let mut grid = new_grid(2, 2);
    grid[0][0] |= DOWN;
    let mut cells = vec![Point { x: 0, y: 0 }];
    let taken = carve_step(&mut grid, &mut cells, &vec![1, 0, 2, 3], 2, 2);
    assert_eq!(taken, Some(1));
    assert_eq!(grid, vec![vec![DOWN | RIGHT, LEFT], vec![0, 0]]);
    assert_eq!(cells, vec![Point { x: 0, y: 0 }, Point { x: 1, y: 0 }]);
}

#[test]
fn step_skips_cells_outside_and_visited() {
    let mut grid = vec![vec![DOWN | RIGHT, LEFT], vec![0, 0]];
    let mut cells = vec![Point { x: 0, y: 0 }, Point { x: 1, y: 0 }];
    let taken = carve_step(&mut grid, &mut cells, &vec![2, 3, 1, 0], 2, 2);
    assert_eq!(taken, Some(0));
    assert_eq!(grid, vec![vec![DOWN | RIGHT, LEFT | UP], vec![0, DOWN]]);
    assert_eq!(
        cells,
        vec![Point { x: 0, y: 0 }, Point { x: 1, y: 0 }, Point { x: 1, y: 1 }]
    );
}

#[test]
fn step_backtracks_when_nothing_is_free() {
    let mut grid = vec![vec![DOWN]];
    let mut cells = vec![Point { x: 0, y: 0 }];
    let taken = carve_step(&mut grid, &mut cells, &vec![3, 2, 1, 0], 1, 1);
    assert_eq!(taken, None);
    assert_eq!(grid, vec![vec![DOWN]]);
    assert_eq!(cells, Vec::<Point>::new());
}

#[test]
fn step_pops_only_the_top_cell() {
    let mut grid = vec![vec![DOWN | RIGHT, LEFT]];
    let mut cells = vec![Point { x: 0, y: 0 }, Point { x: 1, y: 0 }];
    let taken = carve_step(&mut grid, &mut cells, &vec![0, 1, 2, 3], 2, 1);
    assert_eq!(taken, None);
    assert_eq!(grid, vec![vec![DOWN | RIGHT, LEFT]]);
    assert_eq!(cells, vec![Point { x: 0, y: 0 }]);
}

#[test]
fn step_with_an_empty_order_backtracks() {
    let mut grid = new_grid(2, 2);
    grid[0][0] |= DOWN;
    let mut cells = vec![Point { x: 0, y: 0 }];
    let taken = carve_step(&mut grid, &mut cells, &Vec::new(), 2, 2);
    assert_eq!(taken, None);
    assert_eq!(grid, vec![vec![DOWN, 0], vec![0, 0]]);
    assert_eq!(cells, Vec::<Point>::new());
}

#[test]
fn a_fixed_order_gives_a_fixed_maze() {
    let (grid, carves, pops) = run_with_order(2, 2, &vec![0, 1, 2, 3]);
    assert_eq!(grid, vec![vec![DOWN | UP, UP], vec![DOWN | RIGHT, LEFT | DOWN]]);
    assert_eq!(carves, 3);
    assert_eq!(pops, 4);
}

#[test]
fn every_cell_is_pushed_and_popped_once() {
    for order in [vec![0u8, 1, 2, 3], vec![3, 2, 1, 0], vec![1, 3, 0, 2]] {
        let (grid, carves, pops) = run_with_order(6, 5, &order);
        assert!(is_perfect(&grid, 6, 5));
        assert_eq!(carves, 6 * 5 - 1);
        assert_eq!(pops, 6 * 5);
    }
}

fn count_paths(
    grid: &Vec<Vec<u8>>,
    width: i64,
    height: i64,
    from: (i64, i64),
    to: (i64, i64),
    seen: &mut Vec<Vec<bool>>,
) -> u32 {
    if from == to {
        return 1;
    }
    seen[from.1 as usize][from.0 as usize] = true;
    let mut count = 0;
    for d in 0..4 {
        let (nx, ny) = (from.0 + DX[d], from.1 + DY[d]);
        let open = grid[from.1 as usize][from.0 as usize] & BITS[d] != 0;
        if open && inside(width, height, nx, ny) && !seen[ny as usize][nx as usize] {
            count += count_paths(grid, width, height, (nx, ny), to, seen);
        }
    }
    seen[from.1 as usize][from.0 as usize] = false;
    count
}

#[test]
fn one_path_between_any_two_cells() {
    let (width, height) = (4, 4);
    let grid = maze(width, height);
    for ay in 0..height {
        for ax in 0..width {
            for by in 0..height {
                for bx in 0..width {
                    let mut seen = vec![vec![false; width as usize]; height as usize];
                    let paths = count_paths(&grid, width, height, (ax, ay), (bx, by), &mut seen);
                    assert_eq!(paths, 1);
                }
            }
        }
    }
}

#[test]
fn steps_never_clear_a_bit() {
    let (width, height) = (5, 4);
    let order = vec![2u8, 0, 3, 1];
    let mut grid = new_grid(width as usize, height as usize);
    grid[0][0] |= DOWN;
    let mut cells = vec![Point { x: 0, y: 0 }];
    while !cells.is_empty() {
        let before = grid.clone();
        carve_step(&mut grid, &mut cells, &order, width, height);
        for y in 0..height as usize {
            for x in 0..width as usize {
                assert_eq!(grid[y][x] & before[y][x], before[y][x]);
            }
        }
    }
    assert!(is_perfect(&grid, width, height));
}

#[test]
fn a_step_returns_the_direction_it_carved() {
    let mut grid = vec![vec![DOWN, 0, 0]];
    let mut cells = vec![Point { x: 0, y: 0 }];
    assert_eq!(carve_step(&mut grid, &mut cells, &vec![3, 0, 2, 1], 3, 1), Some(1));
    assert_eq!(carve_step(&mut grid, &mut cells, &vec![1, 1, 1, 1], 3, 1), Some(1));
    assert_eq!(grid, vec![vec![DOWN | RIGHT, LEFT | RIGHT, LEFT]]);
    assert_eq!(carve_step(&mut grid, &mut cells, &vec![0, 1, 2, 3], 3, 1), None);
    assert_eq!(cells, vec![Point { x: 0, y: 0 }, Point { x: 1, y: 0 }]);
}
