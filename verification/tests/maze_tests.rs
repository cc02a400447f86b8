use std::collections::HashSet;

use minotaur::color::{parse_hex_to_rgb, ParseHexError};
use minotaur::grid::{Cell, Direction, Grid};

// A perfect maze has 2n - 2 direction flags: one per endpoint of each of
// its n - 1 tree edges.
fn maze_is_perfect(grid: &Grid) -> bool {
    let mut edges = 0;
    for cell in grid.cells.iter() {
        if cell.has(Direction::North) {
            edges += 1;
        }

        if cell.has(Direction::South) {
            edges += 1;
        }

        if cell.has(Direction::East) {
            edges += 1;
        }

        if cell.has(Direction::West) {
            edges += 1;
        }
    }
    if (2 * grid.height * grid.width - 2) != edges {
        println!("{}", grid.to_text());
        println!(
            "expect {:?} got {:?}",
            2 * grid.height * grid.width - 2,
            edges
        );
        println!("{:?} ", grid.cells)
    }
    (2 * grid.height * grid.width - 2) == edges
}

// Every flag must be answered by the opposite flag on the neighbor it
// points to, and no flag may point off the grid.
fn maze_is_symmetric(grid: &Grid) -> bool {
    let w = grid.width;
    let h = grid.height;
    for i in 0..w * h {
        let cell = grid.cells[i];
        if cell.has(Direction::North) && (i < w || !grid.cells[i - w].has(Direction::South)) {
            return false;
        }
        if cell.has(Direction::South) && (i + w >= w * h || !grid.cells[i + w].has(Direction::North)) {
            return false;
        }
        if cell.has(Direction::East) && ((i + 1) % w == 0 || !grid.cells[i + 1].has(Direction::West)) {
            return false;
        }
        if cell.has(Direction::West) && (i % w == 0 || !grid.cells[i - 1].has(Direction::East)) {
            return false;
        }
    }
    true
}

#[test]
fn test_binary_tree() {
    let width = 50_usize;
    let height = 50_usize;
    for _i in 0..10000 {
        let mut grid = Grid::new(height, width);
        grid.binary_tree(None);

        assert!(maze_is_perfect(&grid));
    }
}

#[test]
fn test_sidewinder() {
    let width = 50_usize;
    let height = 50_usize;
    for _i in 0..10000 {
        let mut grid = Grid::new(height, width);
        grid.sidewinder(None);

        assert!(maze_is_perfect(&grid));
    }
}

#[test]
fn test_aldous_broder() {
    let width = 50_usize;
    let height = 50_usize;
    let mut grid = Grid::new(height, width);

    for _i in 0..1000 {
        grid.aldous_broder(None);

        assert!(maze_is_perfect(&grid));
    }
}

#[test]
fn test_aldous_broder_all_mazes() {
    let width = 3_usize;
    let height = 3_usize;
    let mut grid = Grid::new(height, width);

    let mut mazes = HashSet::new();
    for _i in 0..100000 {
        grid.aldous_broder(None);
        mazes.insert(grid.to_text());
    }
    assert_eq!(192_usize, mazes.len());
}

#[test]
fn test_wilsons() {
    let width = 50_usize;
    let height = 50_usize;
    let mut grid = Grid::new(height, width);

    for _i in 0..1000 {
        grid.wilsons(None);
        assert!(maze_is_perfect(&grid));
    }
}

#[test]
fn test_wilsons_all_mazes() {
    let width = 3_usize;
    let height = 3_usize;
    let mut grid = Grid::new(height, width);

    let mut mazes = HashSet::new();
    for _i in 0..100000 {
        grid.wilsons(None);
        mazes.insert(grid.to_text());
    }
    assert_eq!(192_usize, mazes.len());
}

#[test]
fn test_hunt_and_kill() {
    let width = 3_usize;
    let height = 3_usize;
    for _i in 0..10000 {
        let mut grid = Grid::new(height, width);
        grid.hunt_and_kill(None);

        assert!(maze_is_perfect(&grid));
    }
}

#[test]
fn test_recursive_backtracker() {
    let width = 50_usize;
    let height = 50_usize;
    let mut grid = Grid::new(height, width);

    for _i in 0..100 {
        grid.recursive_backtracker(None);

        assert!(maze_is_perfect(&grid));
    }
}

#[test]
fn test_symmetry_all_algorithms() {
    let mut grid = Grid::new(7, 5);
    grid.binary_tree(Some(1));
    assert!(maze_is_symmetric(&grid));
    grid.sidewinder(Some(2));
    assert!(maze_is_symmetric(&grid));
    grid.aldous_broder(Some(3));
    assert!(maze_is_symmetric(&grid));
    grid.wilsons(Some(4));
    assert!(maze_is_symmetric(&grid));
    grid.hunt_and_kill(Some(5));
    assert!(maze_is_symmetric(&grid));
    grid.recursive_backtracker(Some(6));
    assert!(maze_is_symmetric(&grid));
}

#[test]
fn test_determinism_same_seed_same_maze() {
    for seed in [0_u64, 7, 42, 123456789] {
        let mut a = Grid::new(6, 4);
        let mut b = Grid::new(6, 4);

        a.binary_tree(Some(seed));
        b.binary_tree(Some(seed));
        assert_eq!(a, b);

        a.sidewinder(Some(seed));
        b.sidewinder(Some(seed));
        assert_eq!(a, b);

        a.aldous_broder(Some(seed));
        b.aldous_broder(Some(seed));
        assert_eq!(a, b);

        a.wilsons(Some(seed));
        b.wilsons(Some(seed));
        assert_eq!(a, b);

        a.hunt_and_kill(Some(seed));
        b.hunt_and_kill(Some(seed));
        assert_eq!(a, b);

        a.recursive_backtracker(Some(seed));
        b.recursive_backtracker(Some(seed));
        assert_eq!(a, b);
    }
}

#[test]
fn test_one_by_one_grid_is_trivially_perfect() {
    let mut grid = Grid::new(1, 1);
    grid.binary_tree(Some(9));
    assert!(maze_is_perfect(&grid));
    grid.sidewinder(Some(9));
    assert!(maze_is_perfect(&grid));
    grid.aldous_broder(Some(9));
    assert!(maze_is_perfect(&grid));
    grid.wilsons(Some(9));
    assert!(maze_is_perfect(&grid));
    grid.hunt_and_kill(Some(9));
    assert!(maze_is_perfect(&grid));
    grid.recursive_backtracker(Some(9));
    assert!(maze_is_perfect(&grid));
    assert_eq!(grid.cells, vec![Cell::empty()]);
}

fn assert_single_row_corridor(grid: &Grid) {
    let w = grid.width;
    assert!(maze_is_perfect(grid));
    for i in 0..w {
        assert!(!grid.cells[i].has(Direction::North));
        assert!(!grid.cells[i].has(Direction::South));
        assert_eq!(grid.cells[i].has(Direction::East), i + 1 < w);
        assert_eq!(grid.cells[i].has(Direction::West), i > 0);
    }
}

#[test]
fn test_single_row_grid_is_a_corridor() {
    let mut grid = Grid::new(8, 1);
    for seed in 0..20_u64 {
        grid.binary_tree(Some(seed));
        assert_single_row_corridor(&grid);
        grid.sidewinder(Some(seed));
        assert_single_row_corridor(&grid);
        grid.aldous_broder(Some(seed));
        assert_single_row_corridor(&grid);
        grid.wilsons(Some(seed));
        assert_single_row_corridor(&grid);
        grid.hunt_and_kill(Some(seed));
        assert_single_row_corridor(&grid);
        grid.recursive_backtracker(Some(seed));
        assert_single_row_corridor(&grid);
    }
}

#[test]
fn test_binary_tree_northeast_corner_stays_closed() {
    let mut grid = Grid::new(5, 5);
    grid.binary_tree(Some(42));
    assert!(!grid.cells[4].has(Direction::North));
    assert!(!grid.cells[4].has(Direction::East));
    for seed in 0..100_u64 {
        grid.binary_tree(Some(seed));
        assert!(!grid.cells[4].has(Direction::North));
        assert!(!grid.cells[4].has(Direction::East));
    }
}

#[test]
fn test_to_text_single_cell() {
    let grid = Grid::new(1, 1);
    assert_eq!(grid.to_text(), "+---+\n|   |\n+---+\n");
}

#[test]
fn test_to_text_two_cell_corridor() {
    let mut grid = Grid::new(2, 1);
    grid.binary_tree(Some(0));
    assert_eq!(grid.to_text(), "+---+---+\n|       |\n+---+---+\n");
}

#[test]
fn test_parse_hex_to_rgb_accepts_six_digits() {
    assert_eq!(parse_hex_to_rgb("#FF00AA"), Ok((255, 0, 170)));
    assert_eq!(parse_hex_to_rgb("ff00aa"), Ok((255, 0, 170)));
    assert_eq!(parse_hex_to_rgb("#000000"), Ok((0, 0, 0)));
    assert_eq!(parse_hex_to_rgb("#FFFFFF"), Ok((255, 255, 255)));
    assert_eq!(parse_hex_to_rgb("1a2B3c"), Ok((26, 43, 60)));
}

#[test]
fn test_parse_hex_to_rgb_rejects_wrong_length() {
    assert_eq!(
        parse_hex_to_rgb("#12345"),
        Err(ParseHexError::Length("#12345".to_string()))
    );
    assert_eq!(
        parse_hex_to_rgb(""),
        Err(ParseHexError::Length("".to_string()))
    );
    assert_eq!(
        parse_hex_to_rgb("1234567"),
        Err(ParseHexError::Length("1234567".to_string()))
    );
}

#[test]
fn test_parse_hex_to_rgb_rejects_bad_digit() {
    assert_eq!(parse_hex_to_rgb("12345G"), Err(ParseHexError::Digit(b'G')));
    assert_eq!(parse_hex_to_rgb("#zz0000"), Err(ParseHexError::Digit(b'z')));
}

#[test]
fn test_grid_new_starts_fully_walled() {
    let grid = Grid::new(4, 3);
    assert_eq!(grid.width, 4);
    assert_eq!(grid.height, 3);
    assert_eq!(grid.cells.len(), 12);
    for cell in grid.cells.iter() {
        assert!(!cell.has(Direction::North));
        assert!(!cell.has(Direction::South));
        assert!(!cell.has(Direction::East));
        assert!(!cell.has(Direction::West));
    }
}

// Breadth-first search over open passages: a perfect maze must reach
// every cell from cell 0.
fn maze_is_connected(grid: &Grid) -> bool {
    let w = grid.width;
    let h = grid.height;
    let mut seen = vec![false; w * h];
    let mut queue = vec![0_usize];
    seen[0] = true;
    let mut reached = 1;
    while let Some(c) = queue.pop() {
        let cell = grid.cells[c];
        let mut neighbors = Vec::new();
        if cell.has(Direction::North) {
            neighbors.push(c - w);
        }
        if cell.has(Direction::South) {
            neighbors.push(c + w);
        }
        if cell.has(Direction::East) {
            neighbors.push(c + 1);
        }
        if cell.has(Direction::West) {
            neighbors.push(c - 1);
        }
        for n in neighbors {
            if !seen[n] {
                seen[n] = true;
                reached += 1;
                queue.push(n);
            }
        }
    }
    reached == w * h
}

#[test]
fn test_all_algorithms_produce_connected_mazes() {
    let mut grid = Grid::new(12, 9);
    for seed in 0..10_u64 {
        grid.binary_tree(Some(seed));
        assert!(maze_is_connected(&grid));
        grid.sidewinder(Some(seed));
        assert!(maze_is_connected(&grid));
        grid.aldous_broder(Some(seed));
        assert!(maze_is_connected(&grid));
        grid.wilsons(Some(seed));
        assert!(maze_is_connected(&grid));
        grid.hunt_and_kill(Some(seed));
        assert!(maze_is_connected(&grid));
        grid.recursive_backtracker(Some(seed));
        assert!(maze_is_connected(&grid));
    }
}

#[test]
fn test_seeded_mazes_differ_across_seeds() {
    // A generator that ignored its seed would give one maze for all
    // seeds; over many seeds at this size that is vanishingly unlikely.
    let mut mazes = HashSet::new();
    for seed in 0..50_u64 {
        let mut grid = Grid::new(6, 6);
        grid.recursive_backtracker(Some(seed));
        mazes.insert(grid.to_text());
    }
    assert!(mazes.len() > 1);
}
