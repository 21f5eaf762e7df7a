use twisty_maze::{Configuration, MazeCell};

#[test]
fn cell_cells_can_be_linked() {
    let mut cell1 = MazeCell::new(1, 1);
    let mut cell2 = MazeCell::new(1, 2);
    assert!(!cell1.is_linked(&cell2.id()));
    assert!(!cell2.is_linked(&cell1.id()));
    cell1.link(&mut cell2);
    assert!(cell1.is_linked(&cell2.id()));
    assert!(cell2.is_linked(&cell1.id()));
}

#[test]
fn cell_can_get_list_of_linked() {
    let mut cell1 = MazeCell::new(1, 1);
    let mut cell2 = MazeCell::new(1, 2);
    let mut cell3 = MazeCell::new(1, 3);
    let mut cell4 = MazeCell::new(1, 4);
    cell2.link(&mut cell1);
    cell2.link(&mut cell3);
    cell3.link(&mut cell4);
    assert_eq!(2, cell2.links().len());
    assert!(cell2.links().contains(&cell1.id()));
    assert!(cell2.links().contains(&cell3.id()));
}

#[test]
fn cell_starts_with_no_neighbors() {
    let cell = MazeCell::new(1, 2);
    assert!(cell.neighbors().is_empty());
}

#[test]
fn cell_knows_its_neighbors() {
    let mut cell1 = MazeCell::new(1, 2);
    let cell2 = MazeCell::new(1, 3);
    let cell3 = MazeCell::new(1, 1);
    cell1.configure(Configuration {
        north: Some(cell2.id()),
        south: Some(cell3.id()),
        ..Default::default()
    });
    assert_eq!(2, cell1.neighbors().len());
    assert!(cell1.neighbors().contains(&cell2.id()));
    assert!(cell1.neighbors().contains(&cell3.id()));
}

#[test]
fn cell_link_is_idempotent() {
    let mut cell1 = MazeCell::new(0, 0);
    let mut cell2 = MazeCell::new(0, 1);
    cell1.link(&mut cell2);
    cell1.link(&mut cell2);
    cell2.link(&mut cell1);
    assert_eq!(vec![cell2.id()], cell1.links());
    assert_eq!(vec![cell1.id()], cell2.links());
}

#[test]
fn cell_neighbors_come_north_south_east_west() {
    let mut cell = MazeCell::new(5, 5);
    let n = MazeCell::new(4, 5).id();
    let s = MazeCell::new(6, 5).id();
    let e = MazeCell::new(5, 6).id();
    let w = MazeCell::new(5, 4).id();
    cell.configure(Configuration { north: Some(n), south: Some(s), east: Some(e), west: Some(w) });
    assert_eq!(vec![n, s, e, w], cell.neighbors());
    assert_eq!(Some(n), cell.north());
    assert_eq!(Some(s), cell.south());
    assert_eq!(Some(e), cell.east());
    assert_eq!(Some(w), cell.west());
    cell.configure(Configuration { east: Some(e), ..Default::default() });
    assert_eq!(vec![e], cell.neighbors());
    assert_eq!(None, cell.north());
}

#[test]
fn cell_walls_follow_links() {
    let mut cell = MazeCell::new(0, 0);
    assert!(cell.has_south_wall());
    assert!(cell.has_east_wall());
    let mut south = MazeCell::new(1, 0);
    let mut east = MazeCell::new(0, 1);
    cell.configure(Configuration { south: Some(south.id()), east: Some(east.id()), ..Default::default() });
    assert!(cell.has_south_wall());
    assert!(cell.has_east_wall());
    cell.link(&mut south);
    assert!(!cell.has_south_wall());
    assert!(cell.has_east_wall());
    cell.link(&mut east);
    assert!(!cell.has_east_wall());
}

#[test]
fn cell_link_to_a_cell_that_is_not_a_neighbor_leaves_walls() {
    let mut cell = MazeCell::new(0, 0);
    let mut far = MazeCell::new(3, 3);
    cell.link(&mut far);
    assert!(cell.is_linked(&far.id()));
    assert!(cell.has_east_wall());
    assert!(cell.has_south_wall());
}

#[test]
fn cell_links_come_in_row_major_order() {
    let mut cell = MazeCell::new(1, 2);
    let mut east = MazeCell::new(1, 3);
    let mut west = MazeCell::new(1, 1);
    let mut north = MazeCell::new(0, 2);
    let mut south = MazeCell::new(2, 2);
    cell.link(&mut east);
    cell.link(&mut south);
    cell.link(&mut west);
    cell.link(&mut north);
    assert_eq!(vec![north.id(), west.id(), east.id(), south.id()], cell.links());
}

#[test]
fn cell_default_is_an_unlinked_cell_at_the_origin() {
    let cell = MazeCell::default();
    assert_eq!(MazeCell::new(0, 0).id(), cell.id());
    assert!(cell.neighbors().is_empty());
    assert!(cell.links().is_empty());
}
