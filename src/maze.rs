use vstd::prelude::*;

use crate::cell::{id_at, lemma_insert_pos, with_link, CellView, Id};
use crate::grid::{add_link_view, Grid};

verus! {

impl Grid {
    /// A walk through the grid: a non-empty sequence of cells, each linked to the next.
    pub open spec fn is_path(self, p: Seq<Id>) -> bool {
        &&& p.len() > 0
        &&& forall|i: int| 0 <= i < p.len() - 1 ==> #[trigger] self.linked(p[i], p[i + 1])
    }

    /// Whether a walk leads from `a` to `b`.
    pub open spec fn connects(self, a: Id, b: Id) -> bool {
        exists|p: Seq<Id>| #[trigger] self.is_path(p) && p[0] == a && p.last() == b
    }

    /// Every cell of the grid can be reached from every other.
    pub open spec fn is_connected(self) -> bool {
        forall|a: Id, b: Id| self.holds(a) && self.holds(b) ==> #[trigger] self.connects(a, b)
    }

    /// The links form a spanning tree of the lattice: they join neighbours only, every
    /// cell is reachable from every other, and there is one link fewer than cells.
    pub open spec fn is_perfect_maze(self) -> bool {
        &&& self.links_adjacent()
        &&& self.is_connected()
        &&& self.link_pairs().finite()
        &&& self.link_count() == self.row_total() * self.col_total() - 1
    }
}

/// A walk read backwards is a walk, since links are recorded on both sides.
pub proof fn lemma_path_reverse(g: Grid, p: Seq<Id>)
    requires
        g.links_ok(),
        g.is_path(p),
    ensures
        g.is_path(p.reverse()),
        p.reverse()[0] == p.last(),
        p.reverse().last() == p[0],
{
    let q = p.reverse();
    assert forall|i: int| 0 <= i < q.len() - 1 implies #[trigger] g.linked(q[i], q[i + 1]) by {
        let j = p.len() - 2 - i;
        assert(g.linked(p[j], p[j + 1]));
    }
}

/// A walk from `a` to `b` followed by one from `b` to `c` is a walk from `a` to `c`.
pub proof fn lemma_connects_trans(g: Grid, a: Id, b: Id, c: Id)
    requires
        g.connects(a, b),
        g.connects(b, c),
    ensures
        g.connects(a, c),
{
    let p = choose|p: Seq<Id>| #[trigger] g.is_path(p) && p[0] == a && p.last() == b;
    let q = choose|q: Seq<Id>| #[trigger] g.is_path(q) && q[0] == b && q.last() == c;
    let w = p.drop_last() + q;
    assert forall|i: int| 0 <= i < w.len() - 1 implies #[trigger] g.linked(w[i], w[i + 1]) by {
        if i < p.len() - 2 {
            assert(g.linked(p[i], p[i + 1]));
        } else if i == p.len() - 2 {
            assert(g.linked(p[i], p[i + 1]));
            assert(w[i + 1] == q[0]);
        } else {
            let j = i - (p.len() - 1);
            assert(g.linked(q[j], q[j + 1]));
        }
    }
    assert(g.is_path(w));
}

/// A link is a walk of one step.
pub proof fn lemma_connects_link(g: Grid, a: Id, b: Id)
    requires
        g.linked(a, b),
    ensures
        g.connects(a, b),
{
    let p = seq![a, b];
    assert(g.linked(p[0], p[1]));
    assert(g.is_path(p));
}

/// Every cell reaches itself.
pub proof fn lemma_connects_self(g: Grid, a: Id)
    ensures
        g.connects(a, a),
{
    assert(g.is_path(seq![a]));
}

/// Where every cell reaches one cell `root`, every cell reaches every other.
pub proof fn lemma_connected_through(g: Grid, root: Id)
    requires
        g.links_ok(),
        forall|x: Id| g.holds(x) ==> #[trigger] g.connects(x, root),
    ensures
        g.is_connected(),
{
    assert forall|a: Id, b: Id| g.holds(a) && g.holds(b) implies #[trigger] g.connects(a, b) by {
        assert(g.connects(b, root));
        let q = choose|q: Seq<Id>| #[trigger] g.is_path(q) && q[0] == b && q.last() == root;
        lemma_path_reverse(g, q);
        assert(g.is_path(q.reverse()) && q.reverse()[0] == root && q.reverse().last() == b);
        assert(g.connects(root, b));
        lemma_connects_trans(g, a, root, b);
    }
}

/// Linking two cells that were not linked adds the link in each of its two orders.
pub proof fn lemma_link_pairs_grow(before: Grid, after: Grid, a: Id, b: Id)
    requires
        before.links_ok(),
        after.is_link_of(before, a, b),
        before.holds(a),
        a != b,
        !before.linked(a, b),
        before.link_pairs().finite(),
    ensures
        after.link_pairs() == before.link_pairs().insert((a, b)).insert((b, a)),
        after.link_pairs().finite(),
        after.link_pairs().len() == before.link_pairs().len() + 2,
{
    assert(!before.linked(b, a));
    assert(after.link_pairs() =~= before.link_pairs().insert((a, b)).insert((b, a)));
    assert(!before.link_pairs().contains((a, b)));
    assert(!before.link_pairs().insert((a, b)).contains((b, a)));
}

/// Where every cell but the north-east corner is linked to its north or its east
/// neighbour, every cell reaches that corner.
pub proof fn lemma_reaches_root_north_east(g: Grid, x: Id)
    requires
        g.is_lattice(),
        g.holds(x),
        forall|y: Id|
            g.holds(y) && y != id_at(0, g.col_total() - 1) ==> #[trigger] north_or_east_linked(g, y),
    ensures
        g.connects(x, id_at(0, g.col_total() - 1)),
    decreases x.row + (g.col_total() - 1 - x.col),
{
    let root = id_at(0, g.col_total() - 1);
    if x == root {
        lemma_connects_self(g, x);
    } else {
        assert(north_or_east_linked(g, x));
        let n = id_at(x.row - 1, x.col as int);
        let e = id_at(x.row as int, x.col + 1);
        if x.row > 0 && g.linked(x, n) {
            lemma_reaches_root_north_east(g, n);
            lemma_connects_link(g, x, n);
            lemma_connects_trans(g, x, n, root);
        } else {
            lemma_reaches_root_north_east(g, e);
            lemma_connects_link(g, x, e);
            lemma_connects_trans(g, x, e, root);
        }
    }
}

/// Cell `x` is linked to its north neighbour or to its east neighbour.
pub open spec fn north_or_east_linked(g: Grid, x: Id) -> bool {
    (x.row > 0 && g.linked(x, id_at(x.row - 1, x.col as int))) || (x.col < g.col_total() - 1
        && g.linked(x, id_at(x.row as int, x.col + 1)))
}


/// Linking is symmetric and idempotent: after `a` and `b` are linked each is linked to
/// the other, linking them once more leaves every cell as it was, and in a well-formed
/// grid two cells that are not linked one way are not linked the other way either.
pub proof fn lemma_link_symmetric_idempotent(g0: Grid, g1: Grid, g2: Grid, a: Id, b: Id)
    requires
        g0.well_formed(),
        g0.holds(a),
        g0.holds(b),
        g1.is_link_of(g0, a, b),
        g2.is_link_of(g1, a, b),
        g2@ == add_link_view(add_link_view(g1@, a, b), b, a),
    ensures
        g1.linked(a, b),
        g1.linked(b, a),
        g2@ == g1@,
        forall|x: Id, y: Id| !g0.linked(x, y) ==> !#[trigger] g0.linked(y, x),
{
    assert(g1.linked(a, b));
    assert(g1.linked(b, a));
    let v = g1@;
    assert(with_link(v[a.row as int][a.col as int].links, b) == v[a.row as int][a.col as int].links);
    assert(add_link_view(v, a, b) =~~= v);
    assert(with_link(v[b.row as int][b.col as int].links, a) == v[b.row as int][b.col as int].links);
    assert(add_link_view(v, b, a) =~~= v);
}

/// A link between two other cells leaves `a` and `b` unlinked both ways if they were: by
/// induction from a new grid, cells that were never linked to each other report no link.
pub proof fn lemma_unlinked_stays_unlinked(g0: Grid, g1: Grid, x: Id, y: Id, a: Id, b: Id)
    requires
        g0.well_formed(),
        g1.is_link_of(g0, x, y),
        !g0.linked(a, b),
        !(x == a && y == b),
        !(x == b && y == a),
    ensures
        !g1.linked(a, b),
        !g1.linked(b, a),
{
    assert(!g0.linked(b, a));
}

/// How many links the cells of a row list, all together.
pub open spec fn row_degree(row: Seq<CellView>) -> int
    decreases row.len(),
{
    if row.len() == 0 {
        0
    } else {
        row_degree(row.drop_last()) + row.last().links.len()
    }
}

/// How many links all cells list, all together: twice the number of links.
pub open spec fn degree_sum(v: Seq<Seq<CellView>>) -> int
    decreases v.len(),
{
    if v.len() == 0 {
        0
    } else {
        degree_sum(v.drop_last()) + row_degree(v.last())
    }
}

/// Changing one cell of a row changes the row's count by the difference of the two.
pub proof fn lemma_row_degree_update(row: Seq<CellView>, j: int, c: CellView)
    requires
        0 <= j < row.len(),
    ensures
        row_degree(row.update(j, c)) == row_degree(row) - row[j].links.len() + c.links.len(),
    decreases row.len(),
{
    let u = row.update(j, c);
    if j == row.len() - 1 {
        assert(u.drop_last() =~= row.drop_last());
    } else {
        lemma_row_degree_update(row.drop_last(), j, c);
        assert(u.drop_last() =~= row.drop_last().update(j, c));
    }
}

/// Changing one row changes the total by the difference of the two rows' counts.
pub proof fn lemma_degree_sum_update(v: Seq<Seq<CellView>>, i: int, row: Seq<CellView>)
    requires
        0 <= i < v.len(),
    ensures
        degree_sum(v.update(i, row)) == degree_sum(v) - row_degree(v[i]) + row_degree(row),
    decreases v.len(),
{
    let u = v.update(i, row);
    if i == v.len() - 1 {
        assert(u.drop_last() =~= v.drop_last());
    } else {
        lemma_degree_sum_update(v.drop_last(), i, row);
        assert(u.drop_last() =~= v.drop_last().update(i, row));
    }
}

/// Cells with no links count none.
pub proof fn lemma_degree_sum_empty(v: Seq<Seq<CellView>>)
    requires
        forall|i: int, j: int| 0 <= i < v.len() && 0 <= j < v[i].len() ==> (#[trigger] v[i][j]).links.len() == 0,
    ensures
        degree_sum(v) == 0,
    decreases v.len(),
{
    if v.len() > 0 {
        lemma_degree_sum_empty(v.drop_last());
        lemma_row_degree_empty(v.last());
    }
}

proof fn lemma_row_degree_empty(row: Seq<CellView>)
    requires
        forall|j: int| 0 <= j < row.len() ==> (#[trigger] row[j]).links.len() == 0,
    ensures
        row_degree(row) == 0,
    decreases row.len(),
{
    if row.len() > 0 {
        lemma_row_degree_empty(row.drop_last());
    }
}

/// Linking two cells that were not linked makes all cells list two links more.
pub proof fn lemma_degree_sum_link(g0: Grid, g1: Grid, a: Id, b: Id)
    requires
        g0.well_formed(),
        g0.holds(a),
        g0.holds(b),
        a != b,
        !g0.linked(a, b),
        g1@ == add_link_view(add_link_view(g0@, a, b), b, a),
    ensures
        degree_sum(g1@) == degree_sum(g0@) + 2,
{
    assert(!g0.linked(b, a));
    let v0 = g0@;
    let v1 = add_link_view(v0, a, b);
    let ca = v0[a.row as int][a.col as int];
    lemma_insert_pos(ca.links, b);
    lemma_row_degree_update(v0[a.row as int], a.col as int, CellView { links: with_link(ca.links, b), ..ca });
    lemma_degree_sum_update(v0, a.row as int, v1[a.row as int]);
    let cb = v1[b.row as int][b.col as int];
    assert(cb.links == v0[b.row as int][b.col as int].links);
    lemma_insert_pos(cb.links, a);
    lemma_row_degree_update(v1[b.row as int], b.col as int, CellView { links: with_link(cb.links, a), ..cb });
    lemma_degree_sum_update(v1, b.row as int, g1@[b.row as int]);
}

} // verus!
