use vstd::prelude::*;

use crate::cell::{id_at, Configuration, Id};
use crate::grid::{add_link_view, adjacent, Grid, MAX_SIDE};
use crate::maze::{
    degree_sum,
    lemma_connected_through,
    lemma_degree_sum_empty,
    lemma_degree_sum_link,
    lemma_link_pairs_grow,
    lemma_reaches_root_north_east,
    north_or_east_linked,
};

verus! {

/// The neighbour that the binary-tree rule links a cell to: north or east by the coin
/// where it has both, the one it has where it has one, none where it has neither.
pub open spec fn binary_tree_target(c: Configuration, heads: bool) -> Option<Id> {
    match (c.north, c.east) {
        (Some(n), Some(e)) => if heads { Some(n) } else { Some(e) },
        (Some(n), None) => Some(n),
        (None, Some(e)) => Some(e),
        (None, None) => None,
    }
}

/// Applies the binary-tree rule to cell `id`, with `heads` the outcome of its coin.
pub fn binary_tree_step(grid: &mut Grid, id: Id, heads: bool)
    requires
        old(grid).well_formed(),
        old(grid).holds(id),
    ensures
        match binary_tree_target(old(grid).cell_at(id).configuration, heads) {
            Some(t) => final(grid).is_link_of(*old(grid), id, t) && final(grid)@ == add_link_view(
                add_link_view(old(grid)@, id, t),
                t,
                id,
            ),
            None => *final(grid) == *old(grid),
        },
{
    let north = grid.get_by_id(id).north();
    let east = grid.get_by_id(id).east();
    proof {
        let c = grid.cell_at(id);
        assert(c == grid@[id.row as int][id.col as int]);
    }
    match (north, east) {
        (Some(n), Some(e)) => {
            if heads {
                grid.link_by_id(id, n)
            } else {
                grid.link_by_id(id, e)
            }
        },
        (Some(n), None) => grid.link_by_id(id, n),
        (None, Some(e)) => grid.link_by_id(id, e),
        (None, None) => {},
    }
}

/// A maze of `rows` by `columns` carved by the binary-tree rule: each cell is linked to
/// its north or its east neighbour, by a fair coin where it has both.
pub fn binary_tree(rows: usize, columns: usize) -> (r: Grid)
    requires
        1 <= rows <= MAX_SIDE,
        1 <= columns <= MAX_SIDE,
    ensures
        r.well_formed(),
        r.row_total() == rows,
        r.col_total() == columns,
        r.is_perfect_maze(),
        degree_sum(r@) == 2 * (rows * columns - 1),
        forall|x: Id|
            r.holds(x) && x != id_at(0, columns - 1) ==> #[trigger] north_or_east_linked(r, x),
{
    let mut grid = Grid::new(rows, columns);
    let ghost cols = columns as int;
    let ghost root = id_at(0, cols - 1);
    let ghost mut parent: Map<Id, Id> = Map::empty();
    let ghost mut count: int = 0;
    proof {
        assert(grid.link_pairs() =~= Set::empty());
        lemma_degree_sum_empty(grid@);
    }
    let mut row: usize = 0;
    while row < rows
        invariant
            1 <= rows <= MAX_SIDE,
            1 <= columns <= MAX_SIDE,
            cols == columns,
            root == id_at(0, cols - 1),
            row <= rows,
            grid.well_formed(),
            grid.row_total() == rows,
            grid.col_total() == columns,
            forall|x: Id|
                #[trigger] parent.contains_key(x) <==> (grid.holds(x) && x.row < row && x != root),
            forall|x: Id|
                #[trigger] parent.contains_key(x) ==> grid.linked(x, parent[x]) && (parent[x]
                    == id_at(x.row - 1, x.col as int) && x.row > 0 || parent[x] == id_at(
                    x.row as int,
                    x.col + 1,
                ) && x.col < cols - 1),
            forall|x: Id, y: Id|
                #[trigger] grid.linked(x, y) <==> (parent.contains_key(x) && parent[x] == y)
                    || (parent.contains_key(y) && parent[y] == x),
            grid.link_pairs().finite(),
            grid.link_pairs().len() == 2 * count,
            degree_sum(grid@) == 2 * count,
            count == row * cols - (if row > 0 { 1int } else { 0 }),
        decreases rows - row,
    {
        let mut col: usize = 0;
        while col < columns
            invariant
                1 <= rows <= MAX_SIDE,
                1 <= columns <= MAX_SIDE,
                cols == columns,
                root == id_at(0, cols - 1),
                row < rows,
                col <= columns,
                grid.well_formed(),
                grid.row_total() == rows,
                grid.col_total() == columns,
                // Every cell passed but the north-east corner has a parent, the neighbour
                // its rule chose, and the links are exactly those to parents.
                forall|x: Id|
                    #[trigger] parent.contains_key(x) <==> (grid.holds(x) && (x.row < row || x.row
                        == row && x.col < col) && x != root),
                forall|x: Id|
                    #[trigger] parent.contains_key(x) ==> grid.linked(x, parent[x]) && (parent[x]
                        == id_at(x.row - 1, x.col as int) && x.row > 0 || parent[x] == id_at(
                        x.row as int,
                        x.col + 1,
                    ) && x.col < cols - 1),
                forall|x: Id, y: Id|
                    #[trigger] grid.linked(x, y) <==> (parent.contains_key(x) && parent[x] == y)
                        || (parent.contains_key(y) && parent[y] == x),
                grid.link_pairs().finite(),
                grid.link_pairs().len() == 2 * count,
                degree_sum(grid@) == 2 * count,
            degree_sum(grid@) == 2 * count,
                count == row * cols + col - (if row > 0 || col == cols { 1int } else { 0 }),
            decreases columns - col,
        {
            let cell = grid.get(row as i32, col as i32);
            let id = cell.id();
            let heads: bool = if cell.north().is_some() && cell.east().is_some() {
                rand::random::<bool>()
            } else {
                false
            };
            let ghost before = grid;
            proof {
                assert(id == id_at(row as int, col as int));
            }
            binary_tree_step(&mut grid, id, heads);
            proof {
                let c = before.cell_at(id);
                match binary_tree_target(c.configuration, heads) {
                    Some(t) => {
                        assert(!parent.contains_key(id));
                        assert(!before.linked(id, t)) by {
                            if before.linked(id, t) {
                                assert(parent.contains_key(t) && parent[t] == id);
                            }
                        }
                        lemma_link_pairs_grow(before, grid, id, t);
                        lemma_degree_sum_link(before, grid, id, t);
                        parent = parent.insert(id, t);
                        count = count + 1;
                    },
                    None => {
                        assert(id == root);
                    },
                }
            }
            col = col + 1;
        }
        proof {
            assert((row + 1) * cols == row * cols + cols) by (nonlinear_arith);
        }
        row = row + 1;
    }
    proof {
        assert forall|x: Id| grid.holds(x) && x != root implies #[trigger] north_or_east_linked(grid, x) by {
            assert(parent.contains_key(x));
        }
        assert forall|x: Id| grid.holds(x) implies #[trigger] grid.connects(x, root) by {
            lemma_reaches_root_north_east(grid, x);
        }
        lemma_connected_through(grid, root);
        assert forall|a: Id, b: Id| #[trigger] grid.linked(a, b) implies adjacent(a, b) by {}
    }
    grid
}


/// On a grid of one row, every cell but the last has no north neighbour and so is
/// linked to its east neighbour: every two neighbours are linked, both ways.
pub proof fn lemma_binary_tree_one_row(g: Grid)
    requires
        g.well_formed(),
        g.row_total() == 1,
        forall|x: Id|
            g.holds(x) && x != id_at(0, g.col_total() - 1) ==> #[trigger] north_or_east_linked(g, x),
    ensures
        forall|j: int| 0 <= j < g.col_total() - 1 ==> #[trigger] g.linked(id_at(0, j), id_at(0, j + 1)),
        forall|j: int| 0 <= j < g.col_total() - 1 ==> #[trigger] g.linked(id_at(0, j + 1), id_at(0, j)),
{
    assert forall|j: int| 0 <= j < g.col_total() - 1 implies #[trigger] g.linked(id_at(0, j), id_at(0, j + 1)) by {
        assert(north_or_east_linked(g, id_at(0, j)));
    }
    assert forall|j: int| 0 <= j < g.col_total() - 1 implies #[trigger] g.linked(id_at(0, j + 1), id_at(0, j)) by {
        assert(g.linked(id_at(0, j), id_at(0, j + 1)));
    }
}

/// On a grid of one column, every cell but the first has no east neighbour and so is
/// linked to its north neighbour: every two neighbours are linked, both ways.
pub proof fn lemma_binary_tree_one_column(g: Grid)
    requires
        g.well_formed(),
        g.col_total() == 1,
        forall|x: Id|
            g.holds(x) && x != id_at(0, g.col_total() - 1) ==> #[trigger] north_or_east_linked(g, x),
    ensures
        forall|i: int| 1 <= i < g.row_total() ==> #[trigger] g.linked(id_at(i, 0), id_at(i - 1, 0)),
        forall|i: int| 1 <= i < g.row_total() ==> #[trigger] g.linked(id_at(i - 1, 0), id_at(i, 0)),
{
    assert forall|i: int| 1 <= i < g.row_total() implies #[trigger] g.linked(id_at(i, 0), id_at(i - 1, 0)) by {
        assert(north_or_east_linked(g, id_at(i, 0)));
    }
    assert forall|i: int| 1 <= i < g.row_total() implies #[trigger] g.linked(id_at(i - 1, 0), id_at(i, 0)) by {
        assert(g.linked(id_at(i, 0), id_at(i - 1, 0)));
    }
}

} // verus!
