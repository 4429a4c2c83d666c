use maze_engine::{Cell, Grid};

/// Every `Path` or `Solution` cell reachable from the entrance by a flood
/// fill over non-`Wall` cells.
fn flood_from_entrance(g: &Grid) -> Vec<bool> {
    let mut seen = vec![false; g.width * g.height];
    let mut stack = vec![(1usize, 0usize)];
    seen[1] = true;
    while let Some((x, y)) = stack.pop() {
        let mut neighbors = Vec::new();
        if y + 1 < g.height {
            neighbors.push((x, y + 1));
        }
        if x + 1 < g.width {
            neighbors.push((x + 1, y));
        }
        if y > 0 {
            neighbors.push((x, y - 1));
        }
        if x > 0 {
            neighbors.push((x - 1, y));
        }
        for (nx, ny) in neighbors {
            let i = ny * g.width + nx;
            if !seen[i] && g.get(nx, ny) != Some(Cell::Wall) {
                seen[i] = true;
                stack.push((nx, ny));
            }
        }
    }
    seen
}

#[test]
fn new_keeps_odd_dimensions() {
    let g = Grid::new(5, 7);
    assert_eq!(g.width, 5);
    assert_eq!(g.height, 7);
}

#[test]
fn new_decrements_even_dimensions() {
    let g = Grid::new(6, 8);
    assert_eq!(g.width, 5);
    assert_eq!(g.height, 7);
    let g2 = Grid::new(10, 5);
    assert_eq!(g2.width, 9);
    assert_eq!(g2.height, 5);
}

#[test]
fn new_fills_with_walls() {
    let g = Grid::new(5, 5);
    assert_eq!(g.grid.len(), 25);
    for y in 0..5 {
        for x in 0..5 {
            assert_eq!(g.get(x, y), Some(Cell::Wall));
        }
    }
}

#[test]
fn get_out_of_bounds_is_absent() {
    let g = Grid::new(5, 5);
    assert_eq!(g.get(5, 0), None);
    assert_eq!(g.get(0, 5), None);
    assert_eq!(g.get(100, 100), None);
}

#[test]
fn set_out_of_bounds_is_ignored() {
    let mut g = Grid::new(5, 5);
    g.set(7, 7, Cell::Path);
    for y in 0..5 {
        for x in 0..5 {
            assert_eq!(g.get(x, y), Some(Cell::Wall));
        }
    }
}

#[test]
fn set_then_get_roundtrips() {
    let mut g = Grid::new(5, 5);
    g.set(2, 3, Cell::Path);
    assert_eq!(g.get(2, 3), Some(Cell::Path));
    g.set(2, 3, Cell::Solution);
    assert_eq!(g.get(2, 3), Some(Cell::Solution));
}

#[test]
fn generate_opens_entrance_and_exit() {
    for &(w, h) in &[(5, 5), (7, 9), (21, 13), (5, 31)] {
        let mut g = Grid::new(w, h);
        g.generate_maze((w * 100 + h) as u64);
        assert_eq!(g.get(1, 0), Some(Cell::Path));
        assert_eq!(g.get(g.width - 2, g.height - 1), Some(Cell::Path));
    }
}

#[test]
fn generate_only_carves_paths() {
    let mut g = Grid::new(9, 9);
    g.generate_maze(17);
    for y in 0..g.height {
        for x in 0..g.width {
            let c = g.get(x, y).unwrap();
            assert!(c == Cell::Wall || c == Cell::Path);
            // Chambers are carved, connectors sit between them; a cell with
            // both coordinates odd is never touched.
            if x % 2 == 1 && y % 2 == 1 {
                assert_eq!(c, Cell::Wall);
            }
            if x % 2 == 0 && y % 2 == 0 {
                assert_eq!(c, Cell::Path);
            }
        }
    }
}

#[test]
fn generate_seeded_is_reproducible() {
    let mut a = Grid::new(15, 15);
    let mut b = Grid::new(15, 15);
    a.generate_maze(42);
    b.generate_maze(42);
    assert_eq!(a.width, b.width);
    assert_eq!(a.height, b.height);
    assert_eq!(a.grid, b.grid);
}

#[test]
fn generated_paths_are_connected() {
    // Perfectness: a flood fill from the entrance reaches every open cell.
    for seed in [1u64, 2, 3, 4, 5] {
        let mut g = Grid::new(15, 11);
        g.generate_maze(seed);
        let seen = flood_from_entrance(&g);
        for y in 0..g.height {
            for x in 0..g.width {
                if g.get(x, y) == Some(Cell::Path) {
                    assert!(seen[y * g.width + x], "unreached open cell at ({x}, {y})");
                }
            }
        }
    }
}

#[test]
fn solve_connects_entrance_to_exit() {
    // After generate then solve there is a contiguous chain of non-wall
    // cells from the entrance to the exit.
    let mut g = Grid::new(15, 15);
    g.generate_maze(7);
    g.solve_maze();
    let seen = flood_from_entrance(&g);
    let exit = (g.height - 1) * g.width + (g.width - 2);
    assert!(seen[exit]);
}

#[test]
fn solution_cells_lie_strictly_between_endpoints() {
    let mut g = Grid::new(15, 15);
    g.generate_maze(9);
    g.solve_maze();
    assert_ne!(g.get(1, 0), Some(Cell::Solution));
    assert_ne!(g.get(g.width - 2, g.height - 1), Some(Cell::Solution));
    // Marked cells were walkable before: solving never turns a wall.
    let mut reference = Grid::new(15, 15);
    reference.generate_maze(9);
    for y in 0..g.height {
        for x in 0..g.width {
            if g.get(x, y) == Some(Cell::Solution) {
                assert_eq!(reference.get(x, y), Some(Cell::Path));
            } else {
                assert_eq!(g.get(x, y), reference.get(x, y));
            }
        }
    }
}

#[test]
fn solution_cells_form_a_route() {
    // The Solution cells plus the two endpoints form a chain: each Solution
    // cell touches its predecessor and successor on the route, so it has at
    // least two neighbors among the Solution cells and the endpoints.
    let mut g = Grid::new(15, 15);
    g.generate_maze(11);
    g.solve_maze();
    let entrance = (1usize, 0usize);
    let exit = (g.width - 2, g.height - 1);
    let on_route = |x: usize, y: usize| -> bool {
        (x, y) == entrance || (x, y) == exit || g.get(x, y) == Some(Cell::Solution)
    };
    let mut any_solution = false;
    for y in 0..g.height {
        for x in 0..g.width {
            if g.get(x, y) == Some(Cell::Solution) {
                any_solution = true;
                let mut route_neighbors = 0;
                if y + 1 < g.height && on_route(x, y + 1) {
                    route_neighbors += 1;
                }
                if x + 1 < g.width && on_route(x + 1, y) {
                    route_neighbors += 1;
                }
                if y > 0 && on_route(x, y - 1) {
                    route_neighbors += 1;
                }
                if x > 0 && on_route(x - 1, y) {
                    route_neighbors += 1;
                }
                assert!(route_neighbors >= 2, "dangling Solution cell at ({x}, {y})");
            }
        }
    }
    assert!(any_solution);
}

#[test]
fn solve_twice_matches_solve_once() {
    // Idempotence: solving an already solved grid changes nothing.
    let mut once = Grid::new(15, 15);
    once.generate_maze(13);
    let mut twice = Grid::new(15, 15);
    twice.generate_maze(13);
    once.solve_maze();
    twice.solve_maze();
    twice.solve_maze();
    assert_eq!(once.grid, twice.grid);
}

#[test]
fn solve_on_all_walls_is_a_no_op() {
    // The exit is unreachable on an uncarved grid: nothing may be marked.
    let mut g = Grid::new(5, 5);
    g.solve_maze();
    for y in 0..5 {
        for x in 0..5 {
            assert_eq!(g.get(x, y), Some(Cell::Wall));
        }
    }
}

#[test]
fn five_by_five_scenario() {
    let mut g = Grid::new(5, 5);
    for y in 0..5 {
        for x in 0..5 {
            assert_eq!(g.get(x, y), Some(Cell::Wall));
        }
    }
    g.generate_maze(29);
    assert_eq!(g.get(1, 0), Some(Cell::Path));
    assert_eq!(g.get(3, 4), Some(Cell::Path));
    g.solve_maze();
    let seen = flood_from_entrance(&g);
    assert!(seen[4 * 5 + 3], "exit not connected to entrance");
}
