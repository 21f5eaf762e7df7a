use twisty_maze::{Configuration, MazeCell};

#[test]
fn maze_cell_cells_can_be_linked() {
    let mut cell1 = MazeCell::new(1, 1);
    let mut cell2 = MazeCell::new(1, 2);
    assert!(!cell1.is_linked(&cell2.id()));
    assert!(!cell2.is_linked(&cell1.id()));
    cell1.link(&mut cell2);
    assert!(cell1.is_linked(&cell2.id()));
    assert!(cell2.is_linked(&cell1.id()));
}

#[test]
fn maze_cell_can_get_list_of_linked() {
    let mut cell1 = MazeCell::new(1, 1);
    let mut cell2 = MazeCell::new(1, 2);
    let mut cell3 = MazeCell::new(1, 3);
    let mut cell4 = MazeCell::new(1, 4);
    cell2.link(&mut cell1);
    cell2.link(&mut cell3);
    cell3.link(&mut cell4);
    assert_eq!(2, cell2.links().len());
    assert!(cell2.links().contains(&cell1.id()));
    assert!(cell2.links().contains(&cell3.id()));
}

#[test]
fn maze_cell_starts_with_no_neighbors() {
    let cell = MazeCell::new(1, 2);
    assert!(cell.neighbors().is_empty());
}

#[test]
fn maze_cell_knows_its_neighbors() {
    let mut cell1 = MazeCell::new(1, 2);
    let cell2 = MazeCell::new(1, 3);
    let cell3 = MazeCell::new(1, 1);
    cell1.configure(Configuration {
        north: Some(cell2.id()),
        south: Some(cell3.id()),
        ..Default::default()
    });
    assert_eq!(2, cell1.neighbors().len());
    assert!(cell1.neighbors().contains(&cell2.id()));
    assert!(cell1.neighbors().contains(&cell3.id()));
}
