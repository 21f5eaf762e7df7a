use twisty_maze::{Grid, Id};

#[test]
fn has_right_dimensions() {
    let rows = 33;
    let columns = 51;
    let grid = Grid::new(rows, columns);
    grid.rows().iter().next();
    assert_eq!(rows, grid.rows().len());
    for row in grid.rows() {
        assert_eq!(columns, row.len());
    }
    assert_eq!(rows, grid.row_count());
    assert_eq!(columns, grid.column_count());
}

#[test]
fn gives_neighbors_to_cells() {
    let rows = 3;
    let columns = 3;
    let grid = Grid::new(rows, columns);
    let mut rows = grid.rows().iter();

    let top_row = rows.next().unwrap();
    assert_eq!(2, top_row[0].neighbors().len());
    assert_eq!(3, top_row[1].neighbors().len());
    assert_eq!(2, top_row[2].neighbors().len());
    assert!(top_row[0].neighbors().contains(&grid.get(0, 1).id()));
    assert!(top_row[0].neighbors().contains(&grid.get(1, 0).id()));
    assert!(top_row[1].neighbors().contains(&grid.get(0, 0).id()));
    assert!(top_row[1].neighbors().contains(&grid.get(0, 2).id()));
    assert!(top_row[1].neighbors().contains(&grid.get(1, 1).id()));

    let middle_row = rows.next().unwrap();
    assert_eq!(3, middle_row[0].neighbors().len());
    assert_eq!(4, middle_row[1].neighbors().len());
    assert_eq!(3, middle_row[2].neighbors().len());
    assert!(middle_row[0].neighbors().contains(&grid.get(0, 0).id()));
    assert!(middle_row[0].neighbors().contains(&grid.get(2, 0).id()));
    assert!(middle_row[0].neighbors().contains(&grid.get(1, 1).id()));
    assert!(middle_row[1].neighbors().contains(&grid.get(0, 1).id()));
    assert!(middle_row[1].neighbors().contains(&grid.get(2, 1).id()));
    assert!(middle_row[1].neighbors().contains(&grid.get(1, 0).id()));
    assert!(middle_row[1].neighbors().contains(&grid.get(1, 2).id()));
    assert!(middle_row[2].neighbors().contains(&grid.get(0, 2).id()));
    assert!(middle_row[2].neighbors().contains(&grid.get(2, 2).id()));
    assert!(middle_row[2].neighbors().contains(&grid.get(1, 1).id()));

    let bottom_row = rows.next().unwrap();
    assert_eq!(2, bottom_row[0].neighbors().len());
    assert_eq!(3, bottom_row[1].neighbors().len());
    assert_eq!(2, bottom_row[2].neighbors().len());
    assert!(bottom_row[0].neighbors().contains(&grid.get(1, 0).id()));
    assert!(bottom_row[0].neighbors().contains(&grid.get(2, 1).id()));
    assert!(bottom_row[1].neighbors().contains(&grid.get(2, 0).id()));
    assert!(bottom_row[1].neighbors().contains(&grid.get(2, 2).id()));
    assert!(bottom_row[1].neighbors().contains(&grid.get(1, 1).id()));
}

#[test]
fn can_link_by_ids() {
    let mut grid = Grid::new(1, 3);
    let row = &grid.rows()[0];
    let cell0 = row[0].id();
    let cell1 = row[1].id();
    let cell2 = row[2].id();
    grid.link_by_id(cell0, cell1);
    grid.link_by_id(cell1, cell2);

    let row = &grid.rows()[0];
    assert!(row[0].is_linked(&row[1].id()));
    assert!(row[1].is_linked(&row[2].id()));
    assert!(!row[0].is_linked(&row[2].id()));
}

#[test]
fn can_get_ids_by_row() {
    let grid = Grid::new(3, 4);
    let ids_in_rows = grid.ids_by_rows();
    assert_eq!(3, ids_in_rows.len());
    for row in &ids_in_rows {
        assert_eq!(4, row.len());
    }
    assert_eq!(ids_in_rows[0][0], grid.get(0, 0).id());
    assert_eq!(ids_in_rows[0][1], grid.get(0, 1).id());
    assert_eq!(ids_in_rows[0][2], grid.get(0, 2).id());
    assert_eq!(ids_in_rows[0][3], grid.get(0, 3).id());
    assert_eq!(ids_in_rows[1][0], grid.get(1, 0).id());
    assert_eq!(ids_in_rows[1][1], grid.get(1, 1).id());
    assert_eq!(ids_in_rows[1][2], grid.get(1, 2).id());
    assert_eq!(ids_in_rows[1][3], grid.get(1, 3).id());
    assert_eq!(ids_in_rows[2][0], grid.get(2, 0).id());
    assert_eq!(ids_in_rows[2][1], grid.get(2, 1).id());
    assert_eq!(ids_in_rows[2][2], grid.get(2, 2).id());
    assert_eq!(ids_in_rows[2][3], grid.get(2, 3).id());
}

#[test]
fn new_grid_neighbors_match_the_lattice() {
    let grid = Grid::new(4, 5);
    for r in 0..4i32 {
        for c in 0..5i32 {
            let cell = grid.get(r, c);
            assert_eq!(Id { row: r, col: c }, cell.id());
            assert_eq!(if r > 0 { Some(Id { row: r - 1, col: c }) } else { None }, cell.north());
            assert_eq!(if r < 3 { Some(Id { row: r + 1, col: c }) } else { None }, cell.south());
            assert_eq!(if c < 4 { Some(Id { row: r, col: c + 1 }) } else { None }, cell.east());
            assert_eq!(if c > 0 { Some(Id { row: r, col: c - 1 }) } else { None }, cell.west());
            assert!(cell.links().is_empty());
        }
    }
}

#[test]
fn single_cell_grid_has_no_neighbors() {
    let grid = Grid::new(1, 1);
    assert!(grid.get(0, 0).neighbors().is_empty());
    assert_eq!(1, grid.row_count());
    assert_eq!(1, grid.column_count());
}

#[test]
fn link_is_symmetric_and_idempotent() {
    let mut grid = Grid::new(2, 2);
    let a = Id { row: 0, col: 0 };
    let b = Id { row: 1, col: 0 };
    let c = Id { row: 0, col: 1 };
    assert!(!grid.get_by_id(a).is_linked(&b));
    assert!(!grid.get_by_id(b).is_linked(&a));
    grid.link((0, 0), (1, 0));
    assert!(grid.get_by_id(a).is_linked(&b));
    assert!(grid.get_by_id(b).is_linked(&a));
    grid.link((1, 0), (0, 0));
    grid.link_by_id(a, b);
    assert_eq!(vec![b], grid.get_by_id(a).links());
    assert_eq!(vec![a], grid.get_by_id(b).links());
    assert!(!grid.get_by_id(a).is_linked(&c));
    assert!(!grid.get_by_id(c).is_linked(&a));
}

#[test]
fn ids_are_row_major() {
    let grid = Grid::new(2, 3);
    let ids = grid.ids();
    assert_eq!(6, ids.len());
    let mut k = 0;
    for r in 0..2i32 {
        for c in 0..3i32 {
            assert_eq!(Id { row: r, col: c }, ids[k]);
            k += 1;
        }
    }
    let cells = grid.cells();
    assert_eq!(6, cells.len());
    for (i, cell) in cells.iter().enumerate() {
        assert_eq!(ids[i], cell.id());
    }
}

#[test]
fn get_mut_changes_one_cell() {
    let mut grid = Grid::new(2, 2);
    let other = Id { row: 1, col: 1 };
    grid.get_mut(0, 0).configure(twisty_maze::Configuration { south: Some(other), ..Default::default() });
    assert_eq!(Some(other), grid.get(0, 0).south());
    assert_eq!(None, grid.get(0, 0).east());
    assert_eq!(Some(Id { row: 0, col: 1 }), grid.get(1, 1).north());
}

#[test]
fn grid_links_are_listed_in_row_major_order() {
    let mut grid = Grid::new(3, 3);
    grid.link((1, 1), (1, 2));
    grid.link((1, 1), (2, 1));
    grid.link((1, 1), (1, 0));
    grid.link((1, 1), (0, 1));
    assert_eq!(
        vec![Id { row: 0, col: 1 }, Id { row: 1, col: 0 }, Id { row: 1, col: 2 }, Id { row: 2, col: 1 }],
        grid.get(1, 1).links()
    );
}
