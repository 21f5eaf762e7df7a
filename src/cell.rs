use vstd::prelude::*;

verus! {

/// The coordinates of one cell: a row and a column.
#[derive(Clone, Copy, Debug, PartialEq, Eq, PartialOrd, Ord, Hash, Structural)]
pub struct Id {
    pub row: i32,
    pub col: i32,
}

/// The identifier at row `r` and column `c`.
pub open spec fn id_at(r: int, c: int) -> Id {
    Id { row: r as i32, col: c as i32 }
}

/// The neighbours of a cell in the four directions, where it has them.
#[derive(Clone, Copy, Debug)]
pub struct Configuration {
    pub north: Option<Id>,
    pub south: Option<Id>,
    pub east: Option<Id>,
    pub west: Option<Id>,
}

impl Configuration {
    /// A configuration with no neighbour in any direction.
    pub fn empty() -> (r: Configuration)
        ensures
            r == Configuration::none(),
    {
        Configuration { north: None, south: None, east: None, west: None }
    }

    pub open spec fn none() -> Configuration {
        Configuration { north: None, south: None, east: None, west: None }
    }
}

impl Default for Configuration {
    fn default() -> (r: Configuration)
        ensures
            r == Configuration::none(),
    {
        Configuration::empty()
    }
}

/// The identifier held by an option, as a sequence of zero or one items.
pub open spec fn opt_seq(o: Option<Id>) -> Seq<Id> {
    match o {
        Some(i) => seq![i],
        None => Seq::empty(),
    }
}

/// The neighbours that a configuration has, north, south, east and west in turn.
pub open spec fn present_neighbors(c: Configuration) -> Seq<Id> {
    opt_seq(c.north) + opt_seq(c.south) + opt_seq(c.east) + opt_seq(c.west)
}

/// Row-major order on identifiers: by row, then by column.
pub open spec fn id_lt(a: Id, b: Id) -> bool {
    a.row < b.row || (a.row == b.row && a.col < b.col)
}

/// Each identifier of `s` comes strictly before the next in row-major order.
pub open spec fn sorted_ids(s: Seq<Id>) -> bool {
    forall|i: int, j: int| 0 <= i < j < s.len() ==> id_lt(#[trigger] s[i], #[trigger] s[j])
}

/// How many of the leading identifiers of `s` come before `x`.
pub open spec fn insert_pos(s: Seq<Id>, x: Id) -> nat
    decreases s.len(),
{
    if s.len() == 0 || !id_lt(s[0], x) {
        0
    } else {
        1 + insert_pos(s.drop_first(), x)
    }
}

/// `links` with `other` added at its place in row-major order, unless it is there already.
pub open spec fn with_link(links: Seq<Id>, other: Id) -> Seq<Id> {
    if links.contains(other) {
        links
    } else {
        links.insert(insert_pos(links, other) as int, other)
    }
}

/// The identifiers before `insert_pos(s, x)` come before `x`, the one at it does not.
pub proof fn lemma_insert_pos(s: Seq<Id>, x: Id)
    ensures
        insert_pos(s, x) <= s.len(),
        forall|j: int| 0 <= j < insert_pos(s, x) ==> id_lt(#[trigger] s[j], x),
        insert_pos(s, x) < s.len() ==> !id_lt(s[insert_pos(s, x) as int], x),
    decreases s.len(),
{
    if s.len() > 0 && id_lt(s[0], x) {
        lemma_insert_pos(s.drop_first(), x);
        assert forall|j: int| 0 <= j < insert_pos(s, x) implies id_lt(#[trigger] s[j], x) by {
            if j > 0 {
                assert(s[j] == s.drop_first()[j - 1]);
            }
        }
    }
}

/// What adding `other` to `links` keeps and what it adds; a sorted list stays sorted.
pub proof fn lemma_with_link(links: Seq<Id>, other: Id)
    ensures
        forall|y: Id| #[trigger] with_link(links, other).contains(y) <==> (links.contains(y) || y == other),
        sorted_ids(links) ==> sorted_ids(with_link(links, other)),
{
    if !links.contains(other) {
        lemma_insert_pos(links, other);
        let k = insert_pos(links, other) as int;
        let t = links.insert(k, other);
        assert forall|y: Id| #[trigger] t.contains(y) <==> (links.contains(y) || y == other) by {
            if links.contains(y) {
                let i = choose|i: int| 0 <= i < links.len() && links[i] == y;
                if i < k {
                    assert(t[i] == y);
                } else {
                    assert(t[i + 1] == y);
                }
            }
            if y == other {
                assert(t[k] == y);
            }
            if t.contains(y) {
                let i = choose|i: int| 0 <= i < t.len() && t[i] == y;
                if i < k {
                    assert(links[i] == y);
                } else if i > k {
                    assert(links[i - 1] == y);
                }
            }
        }
        if sorted_ids(links) {
            assert forall|j: int| k <= j < links.len() implies id_lt(other, #[trigger] links[j]) by {
                assert(links[k] != other);
                if j > k {
                    assert(id_lt(links[k], links[j]));
                }
            }
            assert forall|i: int, j: int| 0 <= i < j < t.len() implies id_lt(#[trigger] t[i], #[trigger] t[j]) by {
                if j < k {
                    assert(id_lt(links[i], links[j]));
                } else if j == k {
                    assert(id_lt(links[i], other));
                } else if i < k {
                    assert(id_lt(links[i], other));
                    assert(id_lt(other, links[j - 1]));
                } else if i == k {
                    assert(id_lt(other, links[j - 1]));
                } else {
                    assert(id_lt(links[i - 1], links[j - 1]));
                }
            }
        }
    }
}

/// What a cell is: where it stands, its neighbours, and the cells it is linked to.
pub struct CellView {
    pub id: Id,
    pub configuration: Configuration,
    pub links: Seq<Id>,
}

impl CellView {
    /// A wall on the south side: no south neighbour, or one not linked.
    pub open spec fn has_south_wall(self) -> bool {
        !(self.configuration.south is Some && self.links.contains(self.configuration.south->Some_0))
    }

    /// A wall on the east side: no east neighbour, or one not linked.
    pub open spec fn has_east_wall(self) -> bool {
        !(self.configuration.east is Some && self.links.contains(self.configuration.east->Some_0))
    }
}

/// One position of the lattice, with the cells it has been linked to.
/// `links` holds no identifier twice.
#[derive(Debug)]
pub struct MazeCell {
    links: Vec<Id>,
    row: i32,
    col: i32,
    configuration: Configuration,
}

impl MazeCell {
    /// The links are kept in row-major order, each once.
    #[verifier::type_invariant]
    spec fn links_sorted(self) -> bool {
        sorted_ids(self.links@)
    }
}

/// Whether `a` comes before `b` in row-major order.
fn id_less(a: Id, b: Id) -> (r: bool)
    ensures
        r == id_lt(a, b),
{
    a.row < b.row || (a.row == b.row && a.col < b.col)
}

impl View for MazeCell {
    type V = CellView;

    closed spec fn view(&self) -> CellView {
        CellView {
            id: Id { row: self.row, col: self.col },
            configuration: self.configuration,
            links: self.links@,
        }
    }
}

/// Whether `id` occurs in `links`.
fn contains_id(links: &Vec<Id>, id: Id) -> (r: bool)
    ensures
        r == links@.contains(id),
{
    let mut i: usize = 0;
    while i < links.len()
        invariant
            i <= links.len(),
            forall|j: int| 0 <= j < i ==> links@[j] != id,
        decreases links.len() - i,
    {
        if links[i] == id {
            return true;
        }
        i = i + 1;
    }
    false
}

impl Default for MazeCell {
    /// The cell at (0, 0), with no neighbours and no links.
    fn default() -> (r: MazeCell)
        ensures
            r@.id == (Id { row: 0, col: 0 }),
            r@.configuration == Configuration::none(),
            r@.links == Seq::<Id>::empty(),
    {
        MazeCell::new(0, 0)
    }
}

impl MazeCell {
    /// A cell at (`row`, `col`) with no neighbours and no links.
    pub fn new(row: i32, col: i32) -> (r: MazeCell)
        ensures
            r@.id == (Id { row, col }),
            r@.configuration == Configuration::none(),
            r@.links == Seq::<Id>::empty(),
    {
        MazeCell { row, col, links: Vec::new(), configuration: Configuration::empty() }
    }

    /// Sets the four neighbours, replacing those set before.
    pub fn configure(&mut self, configuration: Configuration)
        ensures
            final(self)@.id == old(self)@.id,
            final(self)@.links == old(self)@.links,
            final(self)@.configuration == configuration,
    {
        proof {
            use_type_invariant(&*self);
        }
        self.configuration = configuration;
    }

    pub fn id(&self) -> (r: Id)
        ensures
            r == self@.id,
    {
        Id { row: self.row, col: self.col }
    }

    /// The neighbours that this cell has, north, south, east and west in turn.
    pub fn neighbors(&self) -> (r: Vec<Id>)
        ensures
            r@ == present_neighbors(self@.configuration),
    {
        let mut r: Vec<Id> = Vec::new();
        if let Some(n) = self.configuration.north {
            r.push(n);
        }
        if let Some(s) = self.configuration.south {
            r.push(s);
        }
        if let Some(e) = self.configuration.east {
            r.push(e);
        }
        if let Some(w) = self.configuration.west {
            r.push(w);
        }
        assert(r@ =~= present_neighbors(self@.configuration));
        r
    }

    pub fn north(&self) -> (r: Option<Id>)
        ensures
            r == self@.configuration.north,
    {
        self.configuration.north
    }

    pub fn south(&self) -> (r: Option<Id>)
        ensures
            r == self@.configuration.south,
    {
        self.configuration.south
    }

    pub fn east(&self) -> (r: Option<Id>)
        ensures
            r == self@.configuration.east,
    {
        self.configuration.east
    }

    pub fn west(&self) -> (r: Option<Id>)
        ensures
            r == self@.configuration.west,
    {
        self.configuration.west
    }

    /// Whether this cell has been linked to `other`.
    pub fn is_linked(&self, other: &Id) -> (r: bool)
        ensures
            r == self@.links.contains(*other),
    {
        contains_id(&self.links, *other)
    }

    /// Records `other` among the links of this cell, once, at its place in row-major order.
    pub(crate) fn add_link(&mut self, other: Id)
        ensures
            final(self)@.id == old(self)@.id,
            final(self)@.configuration == old(self)@.configuration,
            final(self)@.links == with_link(old(self)@.links, other),
            sorted_ids(final(self)@.links),
    {
        proof {
            use_type_invariant(&*self);
            lemma_with_link(self.links@, other);
        }
        if !contains_id(&self.links, other) {
            let ghost s = self.links@;
            let mut i: usize = 0;
            proof {
                assert(s.skip(0) =~= s);
            }
            while i < self.links.len() && id_less(self.links[i], other)
                invariant
                    self.links@ == s,
                    i <= s.len(),
                    insert_pos(s, other) == i + insert_pos(s.skip(i as int), other),
                decreases s.len() - i,
            {
                proof {
                    assert(s.skip(i as int).drop_first() =~= s.skip(i + 1));
                }
                i = i + 1;
            }
            proof {
                if i < s.len() {
                    assert(s.skip(i as int)[0] == s[i as int]);
                }
            }
            let mut links = self.links.clone();
            links.insert(i, other);
            self.links = links;
        }
    }

    /// Links this cell and `other` to each other.
    pub fn link(&mut self, other: &mut MazeCell)
        ensures
            final(self)@.id == old(self)@.id,
            final(self)@.configuration == old(self)@.configuration,
            final(self)@.links == with_link(old(self)@.links, old(other)@.id),
            final(other)@.id == old(other)@.id,
            final(other)@.configuration == old(other)@.configuration,
            final(other)@.links == with_link(old(other)@.links, old(self)@.id),
            sorted_ids(final(self)@.links),
            sorted_ids(final(other)@.links),
    {
        let mine = self.id();
        let theirs = other.id();
        self.add_link(theirs);
        other.add_link(mine);
    }

    /// The cells that this cell has been linked to, in row-major order.
    pub fn links(&self) -> (r: Vec<Id>)
        ensures
            r@ == self@.links,
            sorted_ids(r@),
    {
        proof {
            use_type_invariant(self);
        }
        self.links.clone()
    }

    /// Whether a wall stands on the south side: no south neighbour, or one not linked.
    pub fn has_south_wall(&self) -> (r: bool)
        ensures
            r == self@.has_south_wall(),
    {
        match self.configuration.south {
            Some(south) => !self.is_linked(&south),
            None => true,
        }
    }

    /// Whether a wall stands on the east side: no east neighbour, or one not linked.
    pub fn has_east_wall(&self) -> (r: bool)
        ensures
            r == self@.has_east_wall(),
    {
        match self.configuration.east {
            Some(east) => !self.is_linked(&east),
            None => true,
        }
    }
}

} // verus!
