use twisty_maze::Grid;

#[test]
fn single_unlinked_cell_is_drawn_as_a_box() {
    let grid = Grid::new(1, 1);
    assert_eq!("+---+\n|   |\n+---+\n", grid.to_string());
}

#[test]
fn a_link_east_opens_the_wall_between_two_cells() {
    let mut grid = Grid::new(1, 2);
    assert_eq!("+---+---+\n|   |   |\n+---+---+\n", grid.to_string());
    grid.link((0, 0), (0, 1));
    assert_eq!("+---+---+\n|       |\n+---+---+\n", grid.to_string());
}

#[test]
fn a_link_south_opens_the_floor() {
    let mut grid = Grid::new(2, 1);
    grid.link((0, 0), (1, 0));
    assert_eq!("+---+\n|   |\n+   +\n|   |\n+---+\n", grid.to_string());
}

#[test]
fn top_border_has_one_segment_per_column() {
    let grid = Grid::new(2, 3);
    let text = grid.to_string();
    let lines: Vec<&str> = text.lines().collect();
    assert_eq!(5, lines.len());
    assert_eq!("+---+---+---+", lines[0]);
    assert_eq!("|   |   |   |", lines[1]);
    assert_eq!("+---+---+---+", lines[2]);
}

#[test]
fn small_maze_drawing() {
    let mut grid = Grid::new(2, 2);
    grid.link((0, 0), (0, 1));
    grid.link((0, 1), (1, 1));
    grid.link((1, 0), (1, 1));
    let expected = "+---+---+\n|       |\n+---+   +\n|       |\n+---+---+\n";
    assert_eq!(expected, grid.to_string());
}
