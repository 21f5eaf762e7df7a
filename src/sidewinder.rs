use vstd::prelude::*;

use crate::cell::{id_at, Id};
use crate::grid::{add_link_view, lattice_config, Grid, MAX_SIDE};
use crate::maze::{
    degree_sum,
    lemma_degree_sum_empty,
    lemma_degree_sum_link,
    lemma_connected_through,
    lemma_connects_link,
    lemma_connects_self,
    lemma_connects_trans,
    lemma_link_pairs_grow,
};
use crate::random::choose_from;

verus! {

/// In row `r`, each cell from column `a` up to column `b` is linked to its east neighbour
/// but the cell at `b`: the cells from `a` to `b` form one corridor.
pub open spec fn row_chain(g: Grid, r: int, a: int, b: int) -> bool {
    forall|j: int| a <= j < b ==> #[trigger] g.linked(id_at(r, j), id_at(r, j + 1))
}

/// Row `r` has a link to the row above it.
pub open spec fn links_up(g: Grid, r: int) -> bool {
    exists|k: int| 0 <= k < g.col_total() && #[trigger] g.linked(id_at(r, k), id_at(r - 1, k))
}

/// In row `r`, every cell reaches a link up along its corridor, and no corridor holds
/// two links up: each maximal run of east-linked cells has exactly one link to the row above.
pub open spec fn one_link_up_per_run(g: Grid, r: int) -> bool {
    &&& forall|k1: int, k2: int|
        0 <= k1 < k2 < g.col_total() && #[trigger] g.linked(id_at(r, k1), id_at(r - 1, k1))
            && #[trigger] g.linked(id_at(r, k2), id_at(r - 1, k2)) ==> !row_chain(g, r, k1, k2)
    &&& forall|c: int| 0 <= c < g.col_total() ==> #[trigger] goes_up(g, id_at(r, c))
}

/// Cell `x` reaches a link up along its corridor.
pub open spec fn goes_up(g: Grid, x: Id) -> bool {
    exists|k: int| #[trigger] climbs_at(g, x, k)
}

/// Row zero is one corridor, and every other row has a link to the row above, exactly
/// one for each of its runs.
pub open spec fn sidewinder_shape(g: Grid) -> bool {
    &&& row_chain(g, 0, 0, g.col_total() - 1)
    &&& forall|r: int| 1 <= r < g.row_total() ==> #[trigger] links_up(g, r)
    &&& forall|r: int| 1 <= r < g.row_total() ==> #[trigger] one_link_up_per_run(g, r)
}

/// A maximal run of east-linked cells `a..=b` of a row below row zero has exactly one
/// link up, wherever each run of the row reaches one link up and no corridor holds two.
pub proof fn lemma_run_has_one_link_up(g: Grid, r: int, a: int, b: int)
    requires
        g.is_lattice(),
        1 <= r < g.row_total(),
        0 <= a <= b < g.col_total(),
        row_chain(g, r, a, b),
        a == 0 || !g.linked(id_at(r, a - 1), id_at(r, a)),
        b == g.col_total() - 1 || !g.linked(id_at(r, b), id_at(r, b + 1)),
        one_link_up_per_run(g, r),
    ensures
        exists|k: int| a <= k <= b && #[trigger] g.linked(id_at(r, k), id_at(r - 1, k)),
        forall|k1: int, k2: int|
            a <= k1 <= b && a <= k2 <= b && #[trigger] g.linked(id_at(r, k1), id_at(r - 1, k1))
                && #[trigger] g.linked(id_at(r, k2), id_at(r - 1, k2)) ==> k1 == k2,
{
    assert(goes_up(g, id_at(r, a)));
    let k = choose|k: int| #[trigger] climbs_at(g, id_at(r, a), k);
    if k > b {
        assert(g.linked(id_at(r, b), id_at(r, b + 1)));
    }
    assert(a <= k <= b);
    assert forall|k1: int, k2: int|
        a <= k1 <= b && a <= k2 <= b && #[trigger] g.linked(id_at(r, k1), id_at(r - 1, k1))
            && #[trigger] g.linked(id_at(r, k2), id_at(r - 1, k2)) implies k1 == k2 by {
        if k1 < k2 {
            assert(!row_chain(g, r, k1, k2));
        } else if k2 < k1 {
            assert(!row_chain(g, r, k2, k1));
        }
    }
}

/// Along a corridor whose east links stay inside runs, both ends belong to one run.
pub proof fn lemma_chain_same_anchor(g: Grid, anchor: Map<Id, int>, r: int, a: int, b: int)
    requires
        g.is_lattice(),
        0 <= r < g.row_total(),
        0 <= a <= b < g.col_total(),
        row_chain(g, r, a, b),
        forall|j: int| 0 <= j < g.col_total() ==> #[trigger] anchor.contains_key(id_at(r, j)),
        forall|x: Id, y: Id|
            #[trigger] g.linked(x, y) && anchor.contains_key(x) && anchor.contains_key(y) && y.row
                == x.row && y.col == x.col + 1 ==> anchor[x] == anchor[y],
    ensures
        anchor[id_at(r, a)] == anchor[id_at(r, b)],
    decreases b - a,
{
    if a < b {
        lemma_chain_same_anchor(g, anchor, r, a + 1, b);
        assert(g.linked(id_at(r, a), id_at(r, a + 1)));
        assert(anchor.contains_key(id_at(r, a)) && anchor.contains_key(id_at(r, a + 1)));
    }
}

/// Where cell `x` of row `x.row` goes up: column `k`, reached along its row.
pub open spec fn climbs_at(g: Grid, x: Id, k: int) -> bool {
    &&& 0 <= k < g.col_total()
    &&& g.linked(id_at(x.row as int, k), id_at(x.row - 1, k))
    &&& row_chain(g, x.row as int, if x.col < k { x.col as int } else { k }, if x.col < k { k } else { x.col as int })
}

/// Along a corridor of row `r`, the cells at columns `a` and `b` reach each other.
pub proof fn lemma_chain_connects(g: Grid, r: int, a: int, b: int)
    requires
        g.links_ok(),
        a <= b,
        row_chain(g, r, a, b),
    ensures
        g.connects(id_at(r, a), id_at(r, b)),
        g.connects(id_at(r, b), id_at(r, a)),
    decreases b - a,
{
    if a == b {
        lemma_connects_self(g, id_at(r, a));
    } else {
        lemma_chain_connects(g, r, a + 1, b);
        assert(g.linked(id_at(r, a), id_at(r, a + 1)));
        lemma_connects_link(g, id_at(r, a), id_at(r, a + 1));
        lemma_connects_link(g, id_at(r, a + 1), id_at(r, a));
        lemma_connects_trans(g, id_at(r, a), id_at(r, a + 1), id_at(r, b));
        lemma_connects_trans(g, id_at(r, b), id_at(r, a + 1), id_at(r, a));
    }
}

/// Every cell reaches the north-west corner where row zero is one corridor and every
/// cell below it has a column where it goes up.
pub proof fn lemma_reaches_corner(g: Grid, anchor: Map<Id, int>, x: Id)
    requires
        g.is_lattice(),
        g.links_ok(),
        g.holds(x),
        row_chain(g, 0, 0, g.col_total() - 1),
        forall|y: Id| g.holds(y) && y.row >= 1 ==> #[trigger] anchor.contains_key(y) && climbs_at(g, y, anchor[y]),
    ensures
        g.connects(x, id_at(0, 0)),
    decreases x.row,
{
    if x.row == 0 {
        lemma_chain_connects(g, 0, 0, x.col as int);
        assert(x == id_at(0, x.col as int));
    } else {
        assert(anchor.contains_key(x));
        let k = anchor[x];
        let up = id_at(x.row - 1, k);
        let here = id_at(x.row as int, k);
        assert(x == id_at(x.row as int, x.col as int));
        if x.col < k {
            lemma_chain_connects(g, x.row as int, x.col as int, k);
        } else {
            lemma_chain_connects(g, x.row as int, k, x.col as int);
        }
        lemma_connects_link(g, here, up);
        lemma_reaches_corner(g, anchor, up);
        lemma_connects_trans(g, x, here, up);
        lemma_connects_trans(g, x, up, id_at(0, 0));
    }
}

/// Closes a run: links `chosen`, one of its cells, to its north neighbour, and empties
/// the run.
pub fn close_run(run: &mut Vec<Id>, grid: &mut Grid, chosen: Id)
    requires
        old(grid).well_formed(),
        old(run)@.contains(chosen),
        forall|i: int|
            0 <= i < old(run)@.len() ==> old(grid).holds(#[trigger] old(run)@[i]) && old(grid).cell_at(
                old(run)@[i],
            ).configuration.north is Some,
    ensures
        final(grid).is_link_of(*old(grid), chosen, old(grid).cell_at(chosen).configuration.north->Some_0),
        final(grid)@ == add_link_view(
            add_link_view(old(grid)@, chosen, old(grid).cell_at(chosen).configuration.north->Some_0),
            old(grid).cell_at(chosen).configuration.north->Some_0,
            chosen,
        ),
        final(run)@ == Seq::<Id>::empty(),
{
    let cell = grid.get_by_id(chosen);
    let north = cell.north().unwrap();
    let id = cell.id();
    grid.link_by_id(id, north);
    run.clear();
}

/// A maze of `rows` by `columns` carved by the sidewinder rule. Each row is read left to
/// right as runs of cells: a fair coin either closes the run, linking one of its cells
/// drawn at random to the row above, or links the cell to its east neighbour. Runs close at
/// the east edge; row zero, with nothing above, is one corridor.
#[verifier::rlimit(60)]
pub fn sidewinder(rows: usize, columns: usize) -> (r: Grid)
    requires
        1 <= rows <= MAX_SIDE,
        1 <= columns <= MAX_SIDE,
    ensures
        r.well_formed(),
        r.row_total() == rows,
        r.col_total() == columns,
        r.is_perfect_maze(),
        sidewinder_shape(r),
        degree_sum(r@) == 2 * (rows * columns - 1),
        forall|j: int| 0 <= j < columns - 1 ==> #[trigger] r.linked(id_at(0, j + 1), id_at(0, j)),
{
    let mut grid = Grid::new(rows, columns);
    let ghost cols = columns as int;
    let ghost mut anchor: Map<Id, int> = Map::empty();
    let ghost mut count: int = 0;
    proof {
        assert(grid.link_pairs() =~= Set::empty());
        lemma_degree_sum_empty(grid@);
    }
    let id_rows = grid.ids_by_rows();
    let mut row: usize = 0;
    while row < id_rows.len()
        invariant
            1 <= rows <= MAX_SIDE,
            1 <= columns <= MAX_SIDE,
            cols == columns,
            id_rows@.len() == rows,
            forall|i: int, j: int|
                0 <= i < rows && 0 <= j < columns ==> (#[trigger] id_rows@[i]@[j]) == id_at(i, j),
            forall|i: int| 0 <= i < rows ==> (#[trigger] id_rows@[i])@.len() == columns,
            row <= rows,
            grid.well_formed(),
            grid.row_total() == rows,
            grid.col_total() == columns,
            grid.links_adjacent(),
            forall|x: Id, y: Id|
                #[trigger] grid.linked(x, y) && x.row == y.row + 1 ==> x.row < row,
            forall|x: Id, y: Id|
                #[trigger] grid.linked(x, y) && x.row == y.row && y.col == x.col + 1 ==> x.row < row,
            forall|x: Id|
                #[trigger] anchor.contains_key(x) <==> (grid.holds(x) && 1 <= x.row < row),
            forall|x: Id| #[trigger] anchor.contains_key(x) ==> climbs_at(grid, x, anchor[x]),
            forall|x: Id, y: Id|
                #[trigger] grid.linked(x, y) && x.row == y.row + 1 ==> anchor.contains_key(x) && anchor[x]
                    == x.col,
            forall|x: Id, y: Id|
                #[trigger] grid.linked(x, y) && anchor.contains_key(x) && anchor.contains_key(y) && y.row
                    == x.row && y.col == x.col + 1 ==> anchor[x] == anchor[y],
            row > 0 ==> row_chain(grid, 0, 0, cols - 1),
            grid.link_pairs().finite(),
            grid.link_pairs().len() == 2 * count,
            degree_sum(grid@) == 2 * count,
            count == row * cols - (if row > 0 { 1int } else { 0 }),
        decreases rows - row,
    {
        let ids = &id_rows[row];
        let mut run: Vec<Id> = Vec::new();
        let ghost mut start: int = 0;
        let mut col: usize = 0;
        while col < ids.len()
            invariant
                1 <= rows <= MAX_SIDE,
                1 <= columns <= MAX_SIDE,
                cols == columns,
                row < rows,
                ids@.len() == columns,
                forall|j: int| 0 <= j < columns ==> (#[trigger] ids@[j]) == id_at(row as int, j),
                0 <= start <= col <= columns,
                run@.len() == col - start,
                forall|i: int| 0 <= i < run@.len() ==> (#[trigger] run@[i]) == id_at(row as int, start + i),
                row == 0 ==> start == 0,
                row > 0 && col == columns ==> start == columns,
                grid.well_formed(),
                grid.row_total() == rows,
                grid.col_total() == columns,
                grid.links_adjacent(),
                // Links up come from closed runs, links east from cells already passed:
                // the link a cell is about to make is a new one.
                forall|x: Id, y: Id|
                    #[trigger] grid.linked(x, y) && x.row == y.row + 1 ==> x.row < row || (x.row
                        == row && x.col < start),
                forall|x: Id, y: Id|
                    #[trigger] grid.linked(x, y) && x.row == y.row && y.col == x.col + 1 ==> x.row
                        < row || (x.row == row && x.col < col),
                // Each cell of a closed run below row zero knows the column where its run
                // goes up; the open run is one corridor.
                forall|x: Id|
                    #[trigger] anchor.contains_key(x) <==> (grid.holds(x) && 1 <= x.row && (x.row
                        < row || (x.row == row && x.col < start))),
                forall|x: Id| #[trigger] anchor.contains_key(x) ==> climbs_at(grid, x, anchor[x]),
                // A link up marks its cell as the column where its run goes up; east links
                // stay inside runs, and the closed run before the open one is not linked to it.
                forall|x: Id, y: Id|
                    #[trigger] grid.linked(x, y) && x.row == y.row + 1 ==> anchor.contains_key(x) && anchor[x]
                        == x.col,
                forall|x: Id, y: Id|
                    #[trigger] grid.linked(x, y) && anchor.contains_key(x) && anchor.contains_key(y) && y.row
                        == x.row && y.col == x.col + 1 ==> anchor[x] == anchor[y],
row > 0 && 0 < start < cols ==> !grid.linked(id_at(row as int, start - 1), id_at(row as int, start)),
                row > 0 ==> row_chain(grid, 0, 0, cols - 1),
                row_chain(grid, row as int, start, if col < cols - 1 { col as int } else { cols - 1 }),
                grid.link_pairs().finite(),
                grid.link_pairs().len() == 2 * count,
                degree_sum(grid@) == 2 * count,
            degree_sum(grid@) == 2 * count,
                count == row * cols + col - (if row > 0 || col == cols { 1int } else { 0 }),
            decreases columns - col,
        {
            let id = ids[col];
            let north = grid.get_by_id(id).north();
            let east = grid.get_by_id(id).east();
            let ghost before = grid;
            let ghost s0 = start;
            proof {
                assert(id == id_at(row as int, col as int));
                assert(grid@[row as int][col as int].configuration == lattice_config(rows as int, cols, row as int, col as int));
            }
            run.push(id);
            if north.is_some() && (east.is_none() || rand::random::<bool>()) {
                proof {
                    assert forall|i: int| 0 <= i < run@.len() implies grid.holds(#[trigger] run@[i])
                        && grid.cell_at(run@[i]).configuration.north is Some by {
                        assert(run@[i] == id_at(row as int, start + i));
                        assert(grid@[row as int][start + i].configuration == lattice_config(rows as int, cols, row as int, start + i));
                    }
                }
                let ghost run0 = run@;
                let chosen = choose_from(&run);
                close_run(&mut run, &mut grid, chosen);
                proof {
                    let i = choose|i: int| 0 <= i < run0.len() && run0[i] == chosen;
                    let k = start + i;
                    assert(chosen == id_at(row as int, k));
                    assert(before@[row as int][k].configuration == lattice_config(rows as int, cols, row as int, k));
                    let up = id_at(row - 1, k);
                    assert(before.cell_at(chosen).configuration.north->Some_0 == up);
                    assert(!before.linked(chosen, up));
                    lemma_link_pairs_grow(before, grid, chosen, up);
                    lemma_degree_sum_link(before, grid, chosen, up);
                    count = count + 1;
                    let fresh = Map::new(
                        |x: Id| grid.holds(x) && x.row == row && s0 <= x.col <= col,
                        |x: Id| k,
                    );
                    anchor = anchor.union_prefer_right(fresh);
                    start = col + 1;
                    if col + 1 < columns {
                        let x = id_at(row as int, col as int);
                        let y = id_at(row as int, col + 1);
                        assert(y.col == x.col + 1);
                        assert(!before.linked(x, y));
                        assert(!grid.linked(id_at(row as int, start - 1), id_at(row as int, start)));
                    }
                    assert forall|x: Id| #[trigger] anchor.contains_key(x) implies climbs_at(grid, x, anchor[x]) by {
                        if fresh.contains_key(x) {
                            assert(grid.linked(chosen, up));
                            assert(row_chain(before, row as int, s0, col as int));
                        } else {
                            assert(climbs_at(before, x, anchor[x]));
                        }
                    }
                }
            } else if let Some(e) = east {
                grid.link_by_id(id, e);
                proof {
                    assert(e == id_at(row as int, col + 1));
                    assert(!before.linked(id, e));
                    if row > 0 && 0 < start < cols {
                        assert(!before.linked(id_at(row as int, start - 1), id_at(row as int, start)));
                        assert(id_at(row as int, start - 1) != id);
                        assert(id_at(row as int, start - 1) != e);
                    }
                    lemma_link_pairs_grow(before, grid, id, e);
                    lemma_degree_sum_link(before, grid, id, e);
                    count = count + 1;
                    assert forall|x: Id| #[trigger] anchor.contains_key(x) implies climbs_at(grid, x, anchor[x]) by {
                        assert(climbs_at(before, x, anchor[x]));
                    }
                }
            }
            col = col + 1;
        }
        proof {
            assert((row + 1) * cols == row * cols + cols) by (nonlinear_arith);
        }
        row = row + 1;
    }
    proof {
        let corner = id_at(0, 0);
        assert forall|x: Id| grid.holds(x) implies #[trigger] grid.connects(x, corner) by {
            lemma_reaches_corner(grid, anchor, x);
        }
        lemma_connected_through(grid, corner);
        assert forall|j: int| 0 <= j < columns - 1 implies #[trigger] grid.linked(id_at(0, j + 1), id_at(0, j)) by {
            assert(grid.linked(id_at(0, j), id_at(0, j + 1)));
        }
        assert forall|r: int| 1 <= r < grid.row_total() implies #[trigger] links_up(grid, r) by {
            let x = id_at(r, 0);
            assert(anchor.contains_key(x));
            assert(climbs_at(grid, x, anchor[x]));
        }
        assert forall|r: int| 1 <= r < grid.row_total() implies #[trigger] one_link_up_per_run(grid, r) by {
            assert forall|k1: int, k2: int|
                0 <= k1 < k2 < grid.col_total() && #[trigger] grid.linked(id_at(r, k1), id_at(r - 1, k1))
                    && #[trigger] grid.linked(id_at(r, k2), id_at(r - 1, k2)) implies !row_chain(grid, r, k1, k2) by {
                if row_chain(grid, r, k1, k2) {
                    lemma_chain_same_anchor(grid, anchor, r, k1, k2);
                }
            }
            assert forall|c: int| 0 <= c < grid.col_total() implies #[trigger] goes_up(grid, id_at(r, c)) by {
                let x = id_at(r, c);
                assert(anchor.contains_key(x));
                assert(climbs_at(grid, x, anchor[x]));
            }
        }
    }
    grid
}

} // verus!
