use twisty_maze::binary_tree::binary_tree_step;
use twisty_maze::sidewinder::close_run;
use twisty_maze::{binary_tree, sidewinder, Grid, Id};

fn link_count(grid: &Grid) -> usize {
    let mut degrees = 0;
    for cell in grid.cells() {
        degrees += cell.links().len();
    }
    degrees / 2
}

fn reachable_from_corner(grid: &Grid) -> usize {
    let rows = grid.row_count();
    let columns = grid.column_count();
    let mut seen = vec![vec![false; columns]; rows];
    let mut stack = vec![Id { row: 0, col: 0 }];
    seen[0][0] = true;
    let mut count = 0;
    while let Some(id) = stack.pop() {
        count += 1;
        for next in grid.get_by_id(id).links() {
            let (r, c) = (next.row as usize, next.col as usize);
            if !seen[r][c] {
                seen[r][c] = true;
                stack.push(next);
            }
        }
    }
    count
}

fn assert_perfect(grid: &Grid, rows: usize, columns: usize) {
    assert_eq!(rows, grid.row_count());
    assert_eq!(columns, grid.column_count());
    assert_eq!(rows * columns - 1, link_count(grid));
    assert_eq!(rows * columns, reachable_from_corner(grid));
    for cell in grid.cells() {
        for other in cell.links() {
            assert!(cell.neighbors().contains(&other));
            assert!(grid.get_by_id(other).is_linked(&cell.id()));
        }
    }
}

#[test]
fn binary_tree_makes_perfect_mazes() {
    for (rows, columns) in [(1, 1), (1, 5), (5, 1), (2, 2), (4, 7), (10, 10)] {
        for _ in 0..5 {
            assert_perfect(&binary_tree(rows, columns), rows, columns);
        }
    }
}

#[test]
fn sidewinder_makes_perfect_mazes() {
    for (rows, columns) in [(1, 1), (1, 5), (5, 1), (2, 2), (4, 7), (10, 10)] {
        for _ in 0..5 {
            assert_perfect(&sidewinder(rows, columns), rows, columns);
        }
    }
}

#[test]
fn binary_tree_on_one_cell_links_nothing() {
    let grid = binary_tree(1, 1);
    assert_eq!(0, link_count(&grid));
    assert_eq!("+---+\n|   |\n+---+\n", grid.to_string());
}

#[test]
fn binary_tree_on_one_row_links_every_neighbor() {
    let grid = binary_tree(1, 6);
    for c in 0..5 {
        assert!(grid.get(0, c).is_linked(&Id { row: 0, col: c + 1 }));
    }
    assert_eq!("+---+---+---+---+---+---+\n|                       |\n+---+---+---+---+---+---+\n", grid.to_string());
}

#[test]
fn binary_tree_on_one_column_links_every_neighbor() {
    let grid = binary_tree(6, 1);
    for r in 1..6 {
        assert!(grid.get(r, 0).is_linked(&Id { row: r - 1, col: 0 }));
    }
}

#[test]
fn binary_tree_links_each_cell_north_or_east() {
    let grid = binary_tree(6, 6);
    for r in 0..6i32 {
        for c in 0..6i32 {
            let cell = grid.get(r, c);
            let north = r > 0 && cell.is_linked(&Id { row: r - 1, col: c });
            let east = c < 5 && cell.is_linked(&Id { row: r, col: c + 1 });
            assert_eq!(!(r == 0 && c == 5), north || east);
        }
    }
}

#[test]
fn binary_tree_step_follows_the_coin() {
    let mut grid = Grid::new(2, 2);
    let id = Id { row: 1, col: 0 };
    binary_tree_step(&mut grid, id, true);
    assert_eq!(vec![Id { row: 0, col: 0 }], grid.get_by_id(id).links());

    let mut grid = Grid::new(2, 2);
    binary_tree_step(&mut grid, id, false);
    assert_eq!(vec![Id { row: 1, col: 1 }], grid.get_by_id(id).links());

    let mut grid = Grid::new(2, 2);
    let edge = Id { row: 1, col: 1 };
    binary_tree_step(&mut grid, edge, false);
    assert_eq!(vec![Id { row: 0, col: 1 }], grid.get_by_id(edge).links());

    let corner = Id { row: 0, col: 1 };
    binary_tree_step(&mut grid, corner, true);
    assert_eq!(vec![edge], grid.get_by_id(corner).links());
}

#[test]
fn sidewinder_top_row_is_one_corridor() {
    for _ in 0..10 {
        let grid = sidewinder(5, 8);
        for c in 0..7 {
            assert!(grid.get(0, c).is_linked(&Id { row: 0, col: c + 1 }));
        }
        for r in 1..5i32 {
            let up = (0..8i32).any(|c| grid.get(r, c).is_linked(&Id { row: r - 1, col: c }));
            assert!(up);
        }
    }
}

#[test]
fn sidewinder_on_one_column_links_every_neighbor() {
    let grid = sidewinder(4, 1);
    for r in 1..4 {
        assert!(grid.get(r, 0).is_linked(&Id { row: r - 1, col: 0 }));
    }
}

#[test]
fn close_run_links_the_chosen_cell_north_and_empties_the_run() {
    let mut grid = Grid::new(2, 3);
    let mut run = vec![Id { row: 1, col: 0 }, Id { row: 1, col: 1 }, Id { row: 1, col: 2 }];
    close_run(&mut run, &mut grid, Id { row: 1, col: 1 });
    assert!(run.is_empty());
    assert_eq!(vec![Id { row: 0, col: 1 }], grid.get(1, 1).links());
    assert_eq!(vec![Id { row: 1, col: 1 }], grid.get(0, 1).links());
    assert!(grid.get(1, 0).links().is_empty());
    assert!(grid.get(1, 2).links().is_empty());
}

#[test]
fn sidewinder_runs_each_go_up_once() {
    for _ in 0..10 {
        let grid = sidewinder(6, 9);
        for r in 1..6i32 {
            let mut ups_in_run = 0;
            for c in 0..9i32 {
                if grid.get(r, c).is_linked(&Id { row: r - 1, col: c }) {
                    ups_in_run += 1;
                }
                let run_ends = c == 8 || !grid.get(r, c).is_linked(&Id { row: r, col: c + 1 });
                if run_ends {
                    assert_eq!(1, ups_in_run);
                    ups_in_run = 0;
                }
            }
        }
    }
}
