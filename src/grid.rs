use vstd::prelude::*;

use crate::cell::{id_at, lemma_with_link, sorted_ids, CellView, Configuration, Id, MazeCell, with_link};

verus! {

/// The largest number of rows or columns: every row and column index fits in an `i32`.
pub const MAX_SIDE: usize = 0x8000_0000;

/// The neighbours that the cell at (`r`, `c`) has in a lattice of `rows` by `cols`.
pub open spec fn lattice_config(rows: int, cols: int, r: int, c: int) -> Configuration {
    Configuration {
        north: if r > 0 { Some(id_at(r - 1, c)) } else { None },
        south: if r < rows - 1 { Some(id_at(r + 1, c)) } else { None },
        east: if c < cols - 1 { Some(id_at(r, c + 1)) } else { None },
        west: if c > 0 { Some(id_at(r, c - 1)) } else { None },
    }
}

/// Whether `a` and `b` are next to each other in the lattice, in one of the four directions.
pub open spec fn adjacent(a: Id, b: Id) -> bool {
    (a.row == b.row && (a.col == b.col + 1 || b.col == a.col + 1)) || (a.col == b.col && (
    a.row == b.row + 1 || b.row == a.row + 1))
}

/// The cells of each row as the values they stand for.
pub open spec fn view_rows(rows: Seq<Vec<MazeCell>>) -> Seq<Seq<CellView>> {
    rows.map_values(|row: Vec<MazeCell>| row@.map_values(|c: MazeCell| c@))
}

/// The identifiers of a row of cells.
pub open spec fn row_ids(row: Seq<CellView>) -> Seq<Id> {
    row.map_values(|c: CellView| c.id)
}

/// The cells `v` with `other` added to the links of cell `a`, and nothing else changed.
pub open spec fn add_link_view(v: Seq<Seq<CellView>>, a: Id, other: Id) -> Seq<Seq<CellView>> {
    v.update(
        a.row as int,
        v[a.row as int].update(
            a.col as int,
            CellView { links: with_link(v[a.row as int][a.col as int].links, other), ..v[a.row as int][a.col as int] },
        ),
    )
}

/// A rectangular lattice of cells, stored row by row.
pub struct Grid {
    cells: Vec<Vec<MazeCell>>,
}

impl View for Grid {
    type V = Seq<Seq<CellView>>;

    closed spec fn view(&self) -> Seq<Seq<CellView>> {
        view_rows(self.cells@)
    }
}

impl Grid {
    pub open spec fn row_total(self) -> nat {
        self@.len()
    }

    pub open spec fn col_total(self) -> nat {
        if self@.len() > 0 {
            self@[0].len()
        } else {
            0
        }
    }

    pub open spec fn in_bounds(self, r: int, c: int) -> bool {
        0 <= r < self.row_total() && 0 <= c < self.col_total()
    }

    /// Whether `id` names a cell of this grid.
    pub open spec fn holds(self, id: Id) -> bool {
        self.in_bounds(id.row as int, id.col as int)
    }

    pub open spec fn cell_at(self, id: Id) -> CellView {
        self@[id.row as int][id.col as int]
    }

    /// Whether the cell `a` of this grid has a link to `b`.
    pub open spec fn linked(self, a: Id, b: Id) -> bool {
        self.holds(a) && self.cell_at(a).links.contains(b)
    }

    /// Rows and columns are positive, every row is as long as the first, and every
    /// cell has its own coordinates and the neighbours of its place in the lattice.
    pub open spec fn is_lattice(self) -> bool {
        &&& 1 <= self.row_total() <= MAX_SIDE
        &&& 1 <= self.col_total() <= MAX_SIDE
        &&& forall|r: int| 0 <= r < self.row_total() ==> (#[trigger] self@[r]).len() == self.col_total()
        &&& forall|r: int, c: int|
            self.in_bounds(r, c) ==> (#[trigger] self@[r][c]).id == id_at(r, c) && self@[r][c].configuration
                == lattice_config(self.row_total() as int, self.col_total() as int, r, c)
    }

    /// Every cell lists its links once each, in row-major order, and every link is
    /// recorded on both of its sides.
    pub open spec fn links_ok(self) -> bool {
        &&& forall|r: int, c: int| self.in_bounds(r, c) ==> sorted_ids((#[trigger] self@[r][c]).links)
        &&& forall|a: Id, b: Id| #[trigger] self.linked(a, b) ==> self.linked(b, a)
    }

    pub open spec fn well_formed(self) -> bool {
        self.is_lattice() && self.links_ok()
    }

    /// Whether this grid has the shape of `other`: as many rows and as many columns.
    pub open spec fn same_shape(self, other: Grid) -> bool {
        self.row_total() == other.row_total() && self.col_total() == other.col_total()
    }

    /// Whether this grid is `before` with `a` and `b` linked to each other, and no other change.
    pub open spec fn is_link_of(self, before: Grid, a: Id, b: Id) -> bool {
        &&& self.well_formed()
        &&& self.same_shape(before)
        &&& forall|x: Id, y: Id|
            #[trigger] self.linked(x, y) <==> (before.linked(x, y) || (x == a && y == b) || (x == b
                && y == a))
    }

    /// Every pair of cells that are linked, each pair once in each order.
    pub open spec fn link_pairs(self) -> Set<(Id, Id)> {
        Set::new(|p: (Id, Id)| self.linked(p.0, p.1))
    }

    /// The number of links between cells.
    pub open spec fn link_count(self) -> nat {
        self.link_pairs().len() / 2
    }

    /// Every link joins two cells next to each other in the lattice.
    pub open spec fn links_adjacent(self) -> bool {
        forall|a: Id, b: Id| #[trigger] self.linked(a, b) ==> adjacent(a, b)
    }

    /// A grid of `row_count` rows of `column_count` cells, each with the neighbours of
    /// its place in the lattice, and no links.
    pub fn new(row_count: usize, column_count: usize) -> (r: Grid)
        requires
            1 <= row_count <= MAX_SIDE,
            1 <= column_count <= MAX_SIDE,
        ensures
            r.well_formed(),
            r.row_total() == row_count,
            r.col_total() == column_count,
            forall|a: Id, b: Id| !(#[trigger] r.linked(a, b)),
            forall|i: int, j: int| r.in_bounds(i, j) ==> (#[trigger] r@[i][j]).links == Seq::<Id>::empty(),
    {
        let mut cells: Vec<Vec<MazeCell>> = Vec::new();
        let mut row: usize = 0;
        while row < row_count
            invariant
                row <= row_count <= MAX_SIDE,
                1 <= column_count <= MAX_SIDE,
                cells@.len() == row,
                forall|i: int| 0 <= i < row ==> (#[trigger] cells@[i])@.len() == column_count,
                forall|i: int, j: int|
                    0 <= i < row && 0 <= j < column_count ==> (#[trigger] cells@[i]@[j])@.id == id_at(i, j)
                        && cells@[i]@[j]@.links == Seq::<Id>::empty(),
            decreases row_count - row,
        {
            cells.push(make_row(row, column_count));
            row = row + 1;
        }
        let mut row: usize = 0;
        while row < row_count
            invariant
                row <= row_count <= MAX_SIDE,
                1 <= column_count <= MAX_SIDE,
                cells@.len() == row_count,
                forall|i: int| 0 <= i < row_count ==> (#[trigger] cells@[i])@.len() == column_count,
                forall|i: int, j: int|
                    0 <= i < row_count && 0 <= j < column_count ==> (#[trigger] cells@[i]@[j])@.id
                        == id_at(i, j) && cells@[i]@[j]@.links == Seq::<Id>::empty(),
                forall|i: int, j: int|
                    0 <= i < row && 0 <= j < column_count ==> (#[trigger] cells@[i]@[j])@.configuration
                        == lattice_config(row_count as int, column_count as int, i, j),
            decreases row_count - row,
        {
            let mut column: usize = 0;
            while column < column_count
                invariant
                    row < row_count <= MAX_SIDE,
                    column <= column_count <= MAX_SIDE,
                    cells@.len() == row_count,
                    forall|i: int| 0 <= i < row_count ==> (#[trigger] cells@[i])@.len() == column_count,
                    forall|i: int, j: int|
                        0 <= i < row_count && 0 <= j < column_count ==> (#[trigger] cells@[i]@[j])@.id
                            == id_at(i, j) && cells@[i]@[j]@.links == Seq::<Id>::empty(),
                    forall|i: int, j: int|
                        (0 <= i < row || (i == row && 0 <= j < column)) && 0 <= j < column_count
                            ==> (#[trigger] cells@[i]@[j])@.configuration == lattice_config(
                            row_count as int,
                            column_count as int,
                            i,
                            j,
                        ),
                decreases column_count - column,
            {
                let r = row as i32;
                let c = column as i32;
                let north = if row > 0 { Some(Id { row: r - 1, col: c }) } else { None };
                let south = if row < row_count - 1 { Some(Id { row: r + 1, col: c }) } else { None };
                let west = if column > 0 { Some(Id { row: r, col: c - 1 }) } else { None };
                let east = if column < column_count - 1 { Some(Id { row: r, col: c + 1 }) } else { None };
                let configuration = Configuration { north, south, east, west };
                cells[row][column].configure(configuration);
                column = column + 1;
            }
            row = row + 1;
        }
        let g = Grid { cells };
        assert(g@.len() == row_count);
        assert(g@[0].len() == column_count);
        g
    }

    pub fn row_count(&self) -> (r: usize)
        ensures
            r == self.row_total(),
    {
        self.cells.len()
    }

    pub fn column_count(&self) -> (r: usize)
        requires
            self.is_lattice(),
        ensures
            r == self.col_total(),
    {
        self.cells[0].len()
    }

    /// The cell at (`row`, `column`).
    pub fn get(&self, row: i32, column: i32) -> (r: &MazeCell)
        requires
            self.is_lattice(),
            self.in_bounds(row as int, column as int),
        ensures
            r@ == self@[row as int][column as int],
    {
        proof {
            assert(self.cells@[row as int]@.len() == self@[row as int].len());
        }
        &self.cells[row as usize][column as usize]
    }

    /// The cell named by `id`.
    pub fn get_by_id(&self, id: Id) -> (r: &MazeCell)
        requires
            self.is_lattice(),
            self.holds(id),
        ensures
            r@ == self.cell_at(id),
    {
        self.get(id.row, id.col)
    }

    /// The cell at (`row`, `column`), to change in place.
    pub fn get_mut(&mut self, row: i32, column: i32) -> (r: &mut MazeCell)
        requires
            old(self).is_lattice(),
            old(self).in_bounds(row as int, column as int),
        ensures
            (*r)@ == old(self)@[row as int][column as int],
            final(self)@.len() == old(self)@.len(),
            forall|i: int| 0 <= i < old(self)@.len() && i != row ==> final(self)@[i] == old(self)@[i],
            final(self)@[row as int].len() == old(self)@[row as int].len(),
            forall|j: int|
                0 <= j < old(self)@[row as int].len() && j != column ==> final(self)@[row as int][j]
                    == old(self)@[row as int][j],
            final(self)@[row as int][column as int] == (*final(r))@,
    {
        proof {
            assert(self.cells@[row as int]@.len() == self@[row as int].len());
        }
        let r = &mut self.cells[row as usize][column as usize];
        r
    }

    /// Links the cells at `pos1` and `pos2` (row, column) to each other.
    pub fn link(&mut self, pos1: (i32, i32), pos2: (i32, i32))
        requires
            old(self).well_formed(),
            old(self).in_bounds(pos1.0 as int, pos1.1 as int),
            old(self).in_bounds(pos2.0 as int, pos2.1 as int),
        ensures
            final(self).is_link_of(*old(self), id_at(pos1.0 as int, pos1.1 as int), id_at(pos2.0 as int, pos2.1 as int)),
            final(self)@ == add_link_view(
                add_link_view(old(self)@, id_at(pos1.0 as int, pos1.1 as int), id_at(pos2.0 as int, pos2.1 as int)),
                id_at(pos2.0 as int, pos2.1 as int),
                id_at(pos1.0 as int, pos1.1 as int),
            ),
    {
        let (row1, col1) = pos1;
        let (row2, col2) = pos2;
        let id1 = Id { row: row1, col: col1 };
        let id2 = Id { row: row2, col: col2 };
        let ghost g0 = *self;
        proof {
            lemma_with_link(g0@[row1 as int][col1 as int].links, id2);
        }
        self.add_link_at(row1, col1, id2);
        let ghost g1 = *self;
        proof {
            assert(g1.is_lattice());
            lemma_with_link(g1@[row2 as int][col2 as int].links, id1);
        }
        self.add_link_at(row2, col2, id1);
        proof {
            let g2 = *self;
            assert(g2.is_lattice());
            assert forall|x: Id, y: Id| g2.linked(x, y) <==> (g0.linked(x, y) || (x == id1 && y == id2) || (
            x == id2 && y == id1)) by {
                if g0.holds(x) {
                    lemma_with_link(g0@[x.row as int][x.col as int].links, id2);
                    lemma_with_link(g1@[x.row as int][x.col as int].links, id1);
                }
            }
            assert forall|r: int, c: int| g2.in_bounds(r, c) implies sorted_ids((#[trigger] g2@[r][c]).links) by {
                lemma_with_link(g0@[r][c].links, id2);
                lemma_with_link(g1@[r][c].links, id1);
            }
            assert forall|x: Id, y: Id| #[trigger] g2.linked(x, y) implies g2.linked(y, x) by {
                assert(g0.linked(x, y) ==> g0.linked(y, x));
            }
        }
    }

    /// Records `other` among the links of the cell at (`row`, `column`).
    fn add_link_at(&mut self, row: i32, column: i32, other: Id)
        requires
            old(self).is_lattice(),
            old(self).in_bounds(row as int, column as int),
            sorted_ids(old(self)@[row as int][column as int].links),
        ensures
            final(self)@ == add_link_view(old(self)@, Id { row, col: column }, other),
    {
        let ghost g0 = self@;
        proof {
            assert(self.cells@[row as int]@.len() == self@[row as int].len());
        }
        self.cells[row as usize][column as usize].add_link(other);
        proof {
            let want = g0.update(
                row as int,
                g0[row as int].update(
                    column as int,
                    CellView {
                        links: with_link(g0[row as int][column as int].links, other),
                        ..g0[row as int][column as int]
                    },
                ),
            );
            assert(self@.len() == want.len());
            assert forall|i: int| 0 <= i < want.len() implies self@[i] =~= want[i] by {}
            assert(self@ =~= want);
        }
    }

    /// The rows of cells, top to bottom.
    pub fn rows(&self) -> (r: &Vec<Vec<MazeCell>>)
        ensures
            view_rows(r@) == self@,
    {
        &self.cells
    }

    /// Every cell, row by row, each row left to right.
    pub fn cells(&self) -> (r: Vec<&MazeCell>)
        ensures
            r@.map_values(|c: &MazeCell| c@) == self@.flatten(),
    {
        let mut r: Vec<&MazeCell> = Vec::new();
        let mut i: usize = 0;
        while i < self.cells.len()
            invariant
                i <= self.cells@.len(),
                r@.map_values(|c: &MazeCell| c@) == self@.take(i as int).flatten(),
            decreases self.cells@.len() - i,
        {
            let row = &self.cells[i];
            let ghost before = r@.map_values(|c: &MazeCell| c@);
            let mut j: usize = 0;
            while j < row.len()
                invariant
                    j <= row@.len(),
                    r@.map_values(|c: &MazeCell| c@) == before + row@.map_values(|c: MazeCell| c@).take(j as int),
                decreases row@.len() - j,
            {
                let ghost r0 = r@;
                r.push(&row[j]);
                proof {
                    assert(r@ == r0.push(&row@[j as int]));
                    assert(r0.map_values(|c: &MazeCell| c@) == before + row@.map_values(|c: MazeCell| c@).take(j as int));
                    let m0 = r0.map_values(|c: &MazeCell| c@);
                    let m = r@.map_values(|c: &MazeCell| c@);
                    let t = row@.map_values(|c: MazeCell| c@);
                    assert forall|k: int| 0 <= k < m.len() implies m[k] == (before + t.take(j + 1))[k] by {
                        if k < m0.len() {
                            assert(m[k] == m0[k]);
                        }
                    }
                    assert(m0.len() == before.len() + j);
                    assert(m.len() == m0.len() + 1);
                    assert(m =~= before + t.take(j + 1));
                }
                j = j + 1;
            }
            proof {
                assert(self@.take(i + 1) =~= self@.take(i as int).push(self@[i as int]));
                self@.take(i as int).lemma_flatten_push(self@[i as int]);
                assert(row@.map_values(|c: MazeCell| c@).take(j as int) =~= self@[i as int]);
            }
            i = i + 1;
        }
        proof {
            assert(self@.take(i as int) =~= self@);
        }
        r
    }

    /// The identifiers of all cells, row by row, each row left to right.
    pub fn ids(&self) -> (r: Vec<Id>)
        ensures
            r@ == self@.map_values(|row: Seq<CellView>| row_ids(row)).flatten(),
    {
        let by_rows = self.ids_by_rows();
        let mut r: Vec<Id> = Vec::new();
        let ghost rows = self@.map_values(|row: Seq<CellView>| row_ids(row));
        let mut i: usize = 0;
        while i < by_rows.len()
            invariant
                i <= by_rows@.len() == rows.len(),
                forall|k: int| 0 <= k < rows.len() ==> (#[trigger] by_rows@[k])@ == rows[k],
                r@ == rows.take(i as int).flatten(),
            decreases by_rows@.len() - i,
        {
            let row = &by_rows[i];
            let ghost before = r@;
            let mut j: usize = 0;
            while j < row.len()
                invariant
                    j <= row@.len(),
                    r@ == before + row@.take(j as int),
                decreases row@.len() - j,
            {
                r.push(row[j]);
                proof {
                    assert(r@ =~= before + row@.take(j + 1));
                }
                j = j + 1;
            }
            proof {
                assert(rows.take(i + 1) =~= rows.take(i as int).push(rows[i as int]));
                rows.take(i as int).lemma_flatten_push(rows[i as int]);
                assert(row@.take(j as int) =~= row@);
            }
            i = i + 1;
        }
        proof {
            assert(rows.take(i as int) =~= rows);
        }
        r
    }

    /// The identifiers of the cells, one sequence per row, each left to right.
    pub fn ids_by_rows(&self) -> (r: Vec<Vec<Id>>)
        ensures
            r@.len() == self@.len(),
            forall|i: int| 0 <= i < self@.len() ==> (#[trigger] r@[i])@ == row_ids(self@[i]),
            self.is_lattice() ==> forall|i: int, j: int|
                self.in_bounds(i, j) ==> (#[trigger] r@[i]@[j]) == id_at(i, j),
    {
        let mut r: Vec<Vec<Id>> = Vec::new();
        let mut i: usize = 0;
        while i < self.cells.len()
            invariant
                i <= self.cells@.len(),
                r@.len() == i,
                forall|k: int| 0 <= k < i ==> (#[trigger] r@[k])@ == row_ids(self@[k]),
            decreases self.cells@.len() - i,
        {
            let row = &self.cells[i];
            let mut ids: Vec<Id> = Vec::new();
            let mut j: usize = 0;
            while j < row.len()
                invariant
                    j <= row@.len(),
                    ids@ == row_ids(self@[i as int]).take(j as int),
                    row@.map_values(|c: MazeCell| c@) == self@[i as int],
                decreases row@.len() - j,
            {
                ids.push(row[j].id());
                proof {
                    assert(ids@ =~= row_ids(self@[i as int]).take(j + 1));
                }
                j = j + 1;
            }
            proof {
                assert(ids@ =~= row_ids(self@[i as int]));
            }
            r.push(ids);
            i = i + 1;
        }
        proof {
            if self.is_lattice() {
                assert forall|i: int, j: int| self.in_bounds(i, j) implies (#[trigger] r@[i]@[j]) == id_at(i, j) by {
                    assert(self@[i][j].id == id_at(i, j));
                }
            }
        }
        r
    }

    /// Links the cells named `id1` and `id2` to each other.
    pub fn link_by_id(&mut self, id1: Id, id2: Id)
        requires
            old(self).well_formed(),
            old(self).holds(id1),
            old(self).holds(id2),
        ensures
            final(self).is_link_of(*old(self), id1, id2),
            final(self)@ == add_link_view(add_link_view(old(self)@, id1, id2), id2, id1),
    {
        let cell1 = self.get_by_id(id1).id();
        let cell2 = self.get_by_id(id2).id();
        self.link((cell1.row, cell1.col), (cell2.row, cell2.col));
    }
}

/// The cells of row `row`, columns `0` to `column_count - 1`, with no neighbours and no links.
fn make_row(row: usize, column_count: usize) -> (r: Vec<MazeCell>)
    requires
        row < MAX_SIDE,
        column_count <= MAX_SIDE,
    ensures
        r@.len() == column_count,
        forall|j: int|
            0 <= j < column_count ==> (#[trigger] r@[j])@.id == id_at(row as int, j) && r@[j]@.links
                == Seq::<Id>::empty(),
{
    let mut r: Vec<MazeCell> = Vec::new();
    let mut col: usize = 0;
    while col < column_count
        invariant
            row < MAX_SIDE,
            col <= column_count <= MAX_SIDE,
            r@.len() == col,
            forall|j: int|
                0 <= j < col ==> (#[trigger] r@[j])@.id == id_at(row as int, j) && r@[j]@.links
                    == Seq::<Id>::empty(),
        decreases column_count - col,
    {
        r.push(MazeCell::new(row as i32, col as i32));
        col = col + 1;
    }
    r
}

} // verus!
