use vstd::prelude::*;

use itertools::Itertools;

use crate::cell::{CellView, MazeCell};
use crate::grid::{view_rows, Grid};

verus! {

/// `parts` in order, with `sep` between each two of them.
pub open spec fn joined(parts: Seq<Seq<char>>, sep: Seq<char>) -> Seq<char>
    decreases parts.len(),
{
    if parts.len() == 0 {
        Seq::empty()
    } else if parts.len() == 1 {
        parts[0]
    } else {
        joined(parts.drop_last(), sep) + sep + parts.last()
    }
}

/// The views of a sequence of strings.
pub open spec fn string_views(parts: Seq<String>) -> Seq<Seq<char>> {
    parts.map_values(|p: String| p@)
}

/// Relies on itertools' `Itertools::intersperse`: the items in order, with a copy of
/// `sep` between each two; collected into one string.
#[verifier::external_body]
fn join_parts(parts: &Vec<String>, sep: &str) -> (r: String)
    ensures
        r@ == joined(string_views(parts@), sep@),
{
    Itertools::intersperse(parts.iter().cloned(), sep.to_string()).collect()
}

/// `s` written `n` times.
pub open spec fn repeated(s: Seq<char>, n: nat) -> Seq<char>
    decreases n,
{
    if n == 0 {
        Seq::empty()
    } else {
        repeated(s, (n - 1) as nat) + s
    }
}

pub open spec fn border_segment() -> Seq<char> {
    seq!['+', '-', '-', '-']
}

/// What stands east of a cell's interior on its row's content line.
pub open spec fn east_segment(c: CellView) -> Seq<char> {
    if c.has_east_wall() {
        seq![' ', ' ', ' ', '|']
    } else {
        seq![' ', ' ', ' ', ' ']
    }
}

/// What stands under a cell on its row's lower line.
pub open spec fn south_segment(c: CellView) -> Seq<char> {
    if c.has_south_wall() {
        seq!['-', '-', '-', '+']
    } else {
        seq![' ', ' ', ' ', '+']
    }
}

pub open spec fn east_segments(row: Seq<CellView>) -> Seq<char>
    decreases row.len(),
{
    if row.len() == 0 {
        Seq::empty()
    } else {
        east_segments(row.drop_last()) + east_segment(row.last())
    }
}

pub open spec fn south_segments(row: Seq<CellView>) -> Seq<char>
    decreases row.len(),
{
    if row.len() == 0 {
        Seq::empty()
    } else {
        south_segments(row.drop_last()) + south_segment(row.last())
    }
}

/// The two lines of a row: cell interiors with the east walls, then the south walls.
pub open spec fn row_text(row: Seq<CellView>) -> Seq<char> {
    seq!['|'] + east_segments(row) + seq!['\n'] + seq!['+'] + south_segments(row) + seq!['\n']
}

pub open spec fn rows_text(rows: Seq<Seq<CellView>>) -> Seq<char>
    decreases rows.len(),
{
    if rows.len() == 0 {
        Seq::empty()
    } else {
        rows_text(rows.drop_last()) + row_text(rows.last())
    }
}

/// The drawing of a grid of `cols` columns: the top border, then two lines per row.
pub open spec fn maze_text(rows: Seq<Seq<CellView>>, cols: nat) -> Seq<char> {
    repeated(border_segment(), cols) + seq!['+', '\n'] + rows_text(rows)
}

/// `n` copies of a part joined with nothing between them are the part repeated.
pub proof fn lemma_joined_copies(parts: Seq<Seq<char>>, s: Seq<char>)
    requires
        forall|i: int| 0 <= i < parts.len() ==> parts[i] == s,
    ensures
        joined(parts, Seq::empty()) == repeated(s, parts.len()),
    decreases parts.len(),
{
    if parts.len() == 0 {
    } else if parts.len() == 1 {
        assert(repeated(s, 0) + s =~= s);
    } else {
        lemma_joined_copies(parts.drop_last(), s);
        assert(joined(parts.drop_last(), Seq::empty()) + Seq::empty() =~= joined(parts.drop_last(), Seq::empty()));
    }
}

/// The segments of a row are four characters per cell, cell by cell.
pub proof fn lemma_segments_at(row: Seq<CellView>, c: int, i: int)
    requires
        0 <= c < row.len(),
        0 <= i < 4,
    ensures
        east_segments(row).len() == 4 * row.len(),
        south_segments(row).len() == 4 * row.len(),
        east_segments(row)[4 * c + i] == east_segment(row[c])[i],
        south_segments(row)[4 * c + i] == south_segment(row[c])[i],
    decreases row.len(),
{
    lemma_segments_len(row.drop_last());
    if c < row.len() - 1 {
        lemma_segments_at(row.drop_last(), c, i);
    }
}

proof fn lemma_segments_len(row: Seq<CellView>)
    ensures
        east_segments(row).len() == 4 * row.len(),
        south_segments(row).len() == 4 * row.len(),
    decreases row.len(),
{
    if row.len() > 0 {
        lemma_segments_len(row.drop_last());
    }
}

/// With rows of `cols` cells, the text of row `k` stands at `k` times the length of a
/// row's two lines.
pub proof fn lemma_rows_text_at(rows: Seq<Seq<CellView>>, cols: nat, k: int, j: int)
    requires
        forall|i: int| 0 <= i < rows.len() ==> (#[trigger] rows[i]).len() == cols,
        0 <= k < rows.len(),
        0 <= j < 8 * cols + 4,
    ensures
        rows_text(rows).len() == rows.len() * (8 * cols + 4),
        rows_text(rows)[k * (8 * cols + 4) + j] == row_text(rows[k])[j],
    decreases rows.len(),
{
    let n = (8 * cols + 4) as int;
    lemma_rows_text_len(rows.drop_last(), cols);
    lemma_segments_len(rows.last());
    assert((rows.len() - 1) * n + n == rows.len() * n) by (nonlinear_arith);
    if k < rows.len() - 1 {
        lemma_rows_text_at(rows.drop_last(), cols, k, j);
        let m = rows.len() - 1;
        assert(k * n + j < m * n) by (nonlinear_arith)
            requires
                0 <= k,
                k + 1 <= m,
                0 <= j < n,
        ;
    }
}

proof fn lemma_rows_text_len(rows: Seq<Seq<CellView>>, cols: nat)
    requires
        forall|i: int| 0 <= i < rows.len() ==> (#[trigger] rows[i]).len() == cols,
    ensures
        rows_text(rows).len() == rows.len() * (8 * cols + 4),
    decreases rows.len(),
{
    if rows.len() > 0 {
        lemma_rows_text_len(rows.drop_last(), cols);
        lemma_segments_len(rows.last());
        let n = (8 * cols + 4) as int;
        assert((rows.len() - 1) * n + n == rows.len() * n) by (nonlinear_arith);
    }
}

/// Where the walls of cell (`r`, `c`) stand in the drawing. Each line is `4 * cols + 2`
/// characters long, newline included. The content line of row `r` is line `2 * r + 1`: it
/// opens with `|` and shows `|` east of the cell where it has an east wall, a space where
/// it is open. The lower line is line `2 * r + 2`: it opens with `+`, shows `---` or three
/// spaces under the cell, and a `+` at every corner.
pub proof fn lemma_drawing_walls(g: Grid, r: int, c: int)
    requires
        g.is_lattice(),
        g.in_bounds(r, c),
    ensures
        ({
            let w = 4 * g.col_total() + 2;
            let t = maze_text(g@, g.col_total());
            let content = w * (2 * r + 1);
            let lower = w * (2 * r + 2);
            &&& t[content] == '|'
            &&& t[content + 4 * c + 4] == if g@[r][c].has_east_wall() { '|' } else { ' ' }
            &&& t[lower] == '+'
            &&& t[lower + 4 * c + 1] == if g@[r][c].has_south_wall() { '-' } else { ' ' }
            &&& t[lower + 4 * c + 2] == if g@[r][c].has_south_wall() { '-' } else { ' ' }
            &&& t[lower + 4 * c + 3] == if g@[r][c].has_south_wall() { '-' } else { ' ' }
            &&& t[lower + 4 * c + 4] == '+'
        }),
{
    let cols = g.col_total();
    let w = (4 * cols + 2) as int;
    let n = (8 * cols + 4) as int;
    let top = repeated(border_segment(), cols) + seq!['+', '\n'];
    lemma_repeated_len(border_segment(), cols);
    assert(border_segment().len() == 4);
    assert(top.len() == w);
    let row = g@[r];
    lemma_segments_len(row);
    lemma_rows_text_len(g@, cols);
    assert(w * (2 * r + 1) == w + r * n) by (nonlinear_arith)
        requires
            w == 4 * cols + 2,
            n == 8 * cols + 4,
    ;
    assert(w * (2 * r + 2) == w + r * n + w) by (nonlinear_arith)
        requires
            w == 4 * cols + 2,
            n == 8 * cols + 4,
    ;
    assert(r * n + n <= g.row_total() * n) by (nonlinear_arith)
        requires
            r < g.row_total(),
            n >= 0,
    ;
    let t = maze_text(g@, cols);
    let content = w * (2 * r + 1);
    let lower = w * (2 * r + 2);
    assert(t.len() == w + g.row_total() * n);
    assert forall|j: int| 0 <= j < n implies #[trigger] t[w + r * n + j] == row_text(row)[j] by {
        lemma_rows_text_at(g@, cols, r, j);
        assert(t[w + r * n + j] == rows_text(g@)[r * n + j]);
    }
    assert(t[w + r * n + 0] == row_text(row)[0]);
    assert(t[w + r * n + (4 * c + 4)] == row_text(row)[4 * c + 4]);
    assert(t[w + r * n + w] == row_text(row)[w]);
    lemma_segments_at(row, c, 3);
    lemma_segments_at(row, c, 0);
    lemma_segments_at(row, c, 1);
    lemma_segments_at(row, c, 2);
    assert(t[w + r * n + (w + 4 * c + 1)] == row_text(row)[w + 4 * c + 1]);
    assert(t[w + r * n + (w + 4 * c + 2)] == row_text(row)[w + 4 * c + 2]);
    assert(t[w + r * n + (w + 4 * c + 3)] == row_text(row)[w + 4 * c + 3]);
    assert(t[w + r * n + (w + 4 * c + 4)] == row_text(row)[w + 4 * c + 4]);
}

proof fn lemma_repeated_len(s: Seq<char>, n: nat)
    ensures
        repeated(s, n).len() == n * s.len(),
    decreases n,
{
    if n > 0 {
        lemma_repeated_len(s, (n - 1) as nat);
        let m = n as int;
        let l = s.len() as int;
        assert(repeated(s, n).len() == repeated(s, (n - 1) as nat).len() + l);
        assert(repeated(s, (n - 1) as nat).len() == (m - 1) * l);
        assert((m - 1) * l + l == m * l) by (nonlinear_arith);
        assert(m * l == n * s.len());
    } else {
        assert(n * s.len() == 0) by (nonlinear_arith)
            requires
                n == 0,
        ;
    }
}

impl Grid {
    /// The drawing of this grid as text: `+---` per column and a closing `+` on the top
    /// border, then per row a line with `|` where a cell has an east wall and a line with
    /// `---` where it has a south wall, every corner a `+`.
    pub fn to_string(&self) -> (r: String)
        requires
            self.is_lattice(),
        ensures
            r@ == maze_text(self@, self.col_total()),
    {
        let columns = self.column_count();
        let mut parts: Vec<String> = Vec::new();
        let mut i: usize = 0;
        while i < columns
            invariant
                i <= columns,
                parts@.len() == i,
                forall|k: int| 0 <= k < i ==> (#[trigger] parts@[k])@ == border_segment(),
            decreases columns - i,
        {
            proof {
                reveal_strlit("+---");
            }
            parts.push(String::from_str("+---"));
            i = i + 1;
        }
        let mut result = join_parts(&parts, "");
        proof {
            reveal_strlit("");
            reveal_strlit("+\n");
            assert(""@ =~= Seq::<char>::empty());
            assert(string_views(parts@).len() == columns);
            lemma_joined_copies(string_views(parts@), border_segment());
            assert(result@ == repeated(border_segment(), self.col_total()));
            assert("+\n"@ =~= seq!['+', '\n']);
        }
        result.append("+\n");
        let rows = self.rows();
        proof {
            assert(rows_text(self@.take(0)) == Seq::<char>::empty());
            assert(result@ =~= repeated(border_segment(), self.col_total()) + seq!['+', '\n'] + rows_text(self@.take(0)));
        }
        let mut r: usize = 0;
        while r < rows.len()
            invariant
                r <= rows@.len(),
                view_rows(rows@) == self@,
                result@ == repeated(border_segment(), self.col_total()) + seq!['+', '\n'] + rows_text(self@.take(r as int)),
            decreases rows@.len() - r,
        {
            let row = &rows[r];
            proof {
                reveal_strlit("|");
                reveal_strlit("+");
            }
            let mut line1 = String::from_str("|");
            let mut line2 = String::from_str("+");
            let mut c: usize = 0;
            while c < row.len()
                invariant
                    c <= row@.len(),
                    row@.map_values(|m: MazeCell| m@) == self@[r as int],
                    line1@ == seq!['|'] + east_segments(self@[r as int].take(c as int)),
                    line2@ == seq!['+'] + south_segments(self@[r as int].take(c as int)),
                decreases row@.len() - c,
            {
                let cell = &row[c];
                proof {
                    reveal_strlit("   |");
                    reveal_strlit("    ");
                    reveal_strlit("---+");
                    reveal_strlit("   +");
                    let t = self@[r as int].take(c + 1);
                    assert(t.drop_last() =~= self@[r as int].take(c as int));
                    assert(t.last() == cell@);
                }
                line1.append(if cell.has_east_wall() { "   |" } else { "    " });
                line2.append(if cell.has_south_wall() { "---+" } else { "   +" });
                c = c + 1;
            }
            proof {
                reveal_strlit("\n");
                assert(self@[r as int].take(c as int) =~= self@[r as int]);
                let t = self@.take(r + 1);
                assert(t.drop_last() =~= self@.take(r as int));
            }
            result.append(line1.as_str());
            result.append("\n");
            result.append(line2.as_str());
            result.append("\n");
            proof {
                let t = self@.take(r + 1);
                assert(result@ =~= repeated(border_segment(), self.col_total()) + seq!['+', '\n'] + rows_text(t));
            }
            r = r + 1;
        }
        proof {
            assert(self@.take(r as int) =~= self@);
        }
        result
    }
}

} // verus!
