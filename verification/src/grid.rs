//! The grid data model: cells, direction flags, and neighbor arithmetic.

use vstd::prelude::*;
use vstd::arithmetic::div_mod::lemma_mod_multiples_basic;
use vstd::arithmetic::mul::lemma_mul_is_commutative;

verus! {

/// One of the four cardinal directions a passage can lead to.
#[derive(Clone, Copy, PartialEq, Eq, Structural, Debug)]
pub enum Direction {
    North,
    South,
    East,
    West,
}

impl Direction {
    /// The direction that points back: a passage carved from a cell in
    /// direction `d` is recorded on the neighbor as `d.opposite()`.
    pub open spec fn opposite_spec(self) -> Direction {
        match self {
            Direction::North => Direction::South,
            Direction::South => Direction::North,
            Direction::East => Direction::West,
            Direction::West => Direction::East,
        }
    }

    pub fn opposite(self) -> (r: Direction)
        ensures
            r == self.opposite_spec(),
    {
        match self {
            Direction::North => Direction::South,
            Direction::South => Direction::North,
            Direction::East => Direction::West,
            Direction::West => Direction::East,
        }
    }
}

/// A single square of the maze: four flags, each true when there is an
/// open passage to the adjacent cell in that direction. A cell with no
/// flags set is fully walled.
#[derive(Clone, Copy, PartialEq, Eq, Structural, Debug)]
pub struct Cell {
    pub north: bool,
    pub south: bool,
    pub east: bool,
    pub west: bool,
}

impl Cell {
    /// The fully walled cell.
    pub open spec fn empty_spec() -> Cell {
        Cell { north: false, south: false, east: false, west: false }
    }

    pub open spec fn has_dir(self, d: Direction) -> bool {
        match d {
            Direction::North => self.north,
            Direction::South => self.south,
            Direction::East => self.east,
            Direction::West => self.west,
        }
    }

    /// This cell with the flag for `d` set in addition to its present flags.
    pub open spec fn with_dir(self, d: Direction) -> Cell {
        match d {
            Direction::North => Cell { north: true, ..self },
            Direction::South => Cell { south: true, ..self },
            Direction::East => Cell { east: true, ..self },
            Direction::West => Cell { west: true, ..self },
        }
    }

    /// How many of the four flags are set.
    pub open spec fn link_count(self) -> int {
        (if self.north { 1int } else { 0int }) + (if self.south { 1int } else { 0int })
            + (if self.east { 1int } else { 0int }) + (if self.west { 1int } else { 0int })
    }

    pub fn empty() -> (c: Cell)
        ensures
            c == Cell::empty_spec(),
    {
        Cell { north: false, south: false, east: false, west: false }
    }

    /// Whether this cell has an open passage in direction `d`.
    pub fn has(&self, d: Direction) -> (r: bool)
        ensures
            r == self.has_dir(d),
    {
        match d {
            Direction::North => self.north,
            Direction::South => self.south,
            Direction::East => self.east,
            Direction::West => self.west,
        }
    }

    fn with(self, d: Direction) -> (c: Cell)
        ensures
            c == self.with_dir(d),
    {
        match d {
            Direction::North => Cell { north: true, ..self },
            Direction::South => Cell { south: true, ..self },
            Direction::East => Cell { east: true, ..self },
            Direction::West => Cell { west: true, ..self },
        }
    }
}

/// The total number of direction flags set across a cell sequence.
/// A maze whose open links form a spanning tree has `2 * (w * h) - 2`
/// of them: one flag at each endpoint of each of its `w * h - 1` edges.
pub open spec fn flag_count(s: Seq<Cell>) -> int
    decreases s.len(),
{
    if s.len() == 0 {
        0
    } else {
        flag_count(s.drop_last()) + s.last().link_count()
    }
}

/// A maze: `width * height` cells in row-major order, so that index `i`
/// lies in column `i % width` and row `i / width`. Row 0 is the northern
/// edge and column 0 the western edge.
#[derive(PartialEq, Eq, Debug)]
pub struct Grid {
    pub cells: Vec<Cell>,
    pub width: usize,
    pub height: usize,
}

impl Grid {
    /// Both dimensions are at least 1 and the cell sequence has exactly
    /// `width * height` entries.
    pub open spec fn wf(self) -> bool {
        &&& 1 <= self.width
        &&& 1 <= self.height
        &&& self.cells@.len() == self.width * self.height
    }

    pub open spec fn in_bounds(self, i: int) -> bool {
        0 <= i < self.cells@.len()
    }

    /// Whether moving from cell `i` in direction `d` stays inside the grid.
    pub open spec fn valid_dir(self, i: int, d: Direction) -> bool {
        match d {
            Direction::North => i >= self.width,
            Direction::South => i + self.width < self.cells@.len(),
            Direction::East => (i + 1) % (self.width as int) != 0,
            Direction::West => i % (self.width as int) != 0,
        }
    }

    /// The index reached by moving from cell `i` in direction `d`;
    /// meaningful only when `valid_dir(i, d)` holds.
    pub open spec fn nbr_of(self, i: int, d: Direction) -> int {
        match d {
            Direction::North => i - self.width,
            Direction::South => i + self.width,
            Direction::East => i + 1,
            Direction::West => i - 1,
        }
    }

    /// Every set flag points inside the grid and is answered by the
    /// opposite flag on the neighbor it points to: links always exist
    /// as a pair.
    pub open spec fn link_symmetric(self) -> bool {
        forall|i: int, d: Direction|
            self.in_bounds(i) && #[trigger] self.cells@[i].has_dir(d) ==> self.valid_dir(i, d)
                && self.cells@[self.nbr_of(i, d)].has_dir(d.opposite_spec())
    }

    /// Builds a fully walled grid. Zero dimensions are rejected by the
    /// precondition: a degenerate grid has no well-formed maze.
    pub fn new(width: usize, height: usize) -> (g: Grid)
        requires
            1 <= width,
            1 <= height,
            width * height <= usize::MAX,
        ensures
            g.width == width,
            g.height == height,
            g.wf(),
            forall|i: int| 0 <= i < g.cells@.len() ==> g.cells@[i] == Cell::empty_spec(),
            flag_count(g.cells@) == 0,
            g.link_symmetric(),
    {
        proof {
            assert(height * width == width * height) by (nonlinear_arith);
        }
        let n: usize = height * width;
        let cells: Vec<Cell> = vec![Cell::empty(); n];
        let g = Grid { cells, width, height };
        proof {
            assert(forall|i: int| 0 <= i < g.cells@.len() ==> g.cells@[i] == Cell::empty_spec());
            lemma_flag_count_all_empty(g.cells@);
        }
        g
    }

    /// True iff moving from cell `i` in `direction` stays inside the grid.
    pub fn valid_direction(&self, i: usize, direction: Direction) -> (r: bool)
        requires
            self.wf(),
            i < self.cells@.len(),
        ensures
            r == self.valid_dir(i as int, direction),
    {
        let n = self.cells.len();
        match direction {
            Direction::North => i >= self.width,
            Direction::South => self.width < n - i,
            Direction::East => (i + 1) % self.width != 0,
            Direction::West => i % self.width != 0,
        }
    }

    /// The index of the cell reached by moving from `i` in `direction`.
    /// The move must stay inside the grid: stepping off the edge is a
    /// logic defect, not a runtime condition, so it is excluded here.
    pub fn neighbor(&self, i: usize, direction: Direction) -> (r: usize)
        requires
            self.wf(),
            i < self.cells@.len(),
            self.valid_dir(i as int, direction),
        ensures
            r == self.nbr_of(i as int, direction),
            r < self.cells@.len(),
    {
        let n = self.cells.len();
        proof {
            lemma_neighbor_symmetric(*self, i as int, direction);
        }
        match direction {
            Direction::North => i - self.width,
            Direction::South => i + self.width,
            Direction::East => i + 1,
            Direction::West => i - 1,
        }
    }

    /// Opens the passage between cell `i` and its neighbor in `direction`:
    /// sets the flag for `direction` on `i` and the opposite flag on the
    /// neighbor, so links always exist as a pair.
    pub fn link_cells(&mut self, i: usize, direction: Direction)
        requires
            old(self).wf(),
            i < old(self).cells@.len(),
            old(self).valid_dir(i as int, direction),
        ensures
            final(self).width == old(self).width,
            final(self).height == old(self).height,
            final(self).wf(),
            ({
                let j = old(self).nbr_of(i as int, direction);
                final(self).cells@ == old(self).cells@.update(
                    i as int,
                    old(self).cells@[i as int].with_dir(direction),
                ).update(j, old(self).cells@[j].with_dir(direction.opposite_spec()))
            }),
    {
        proof {
            lemma_neighbor_symmetric(*self, i as int, direction);
        }
        let j = self.neighbor(i, direction);
        let back = direction.opposite();
        let ci = self.cells[i].with(direction);
        self.cells[i] = ci;
        let cj = self.cells[j].with(back);
        self.cells[j] = cj;
    }

    /// Returns every cell to the fully walled state, keeping the
    /// dimensions. Every generation algorithm begins with this, so a grid
    /// can be reused across repeated generation calls.
    pub(crate) fn reset_cells(&mut self)
        requires
            old(self).wf(),
        ensures
            final(self).width == old(self).width,
            final(self).height == old(self).height,
            final(self).wf(),
            forall|i: int|
                0 <= i < final(self).cells@.len() ==> final(self).cells@[i] == Cell::empty_spec(),
            flag_count(final(self).cells@) == 0,
            final(self).link_symmetric(),
    {
        let n = self.cells.len();
        let cells: Vec<Cell> = vec![Cell::empty(); n];
        self.cells = cells;
        proof {
            lemma_flag_count_all_empty(self.cells@);
        }
    }
}

/// A move that stays inside the grid can be undone: the neighbor is in
/// bounds, the move back in the opposite direction is itself inside the
/// grid, and it returns to the starting cell.
pub proof fn lemma_neighbor_symmetric(g: Grid, i: int, d: Direction)
    requires
        g.wf(),
        g.in_bounds(i),
        g.valid_dir(i, d),
    ensures
        g.in_bounds(g.nbr_of(i, d)),
        g.nbr_of(i, d) != i,
        g.valid_dir(g.nbr_of(i, d), d.opposite_spec()),
        g.nbr_of(g.nbr_of(i, d), d.opposite_spec()) == i,
{
    let w = g.width as int;
    let h = g.height as int;
    match d {
        Direction::East => {
            if i + 1 == g.cells@.len() {
                lemma_mod_multiples_basic(h, w);
                lemma_mul_is_commutative(w, h);
                assert((i + 1) % w == 0);
            }
        },
        Direction::West => {
            assert(i != 0) by {
                if i == 0 {
                    assert(0int % w == 0);
                }
            }
        },
        _ => {},
    }
}

/// Setting a flag keeps every flag that was already set, and adds no
/// flag but the one asked for.
proof fn lemma_with_dir_has(c: Cell, d: Direction, d2: Direction)
    ensures
        c.with_dir(d).has_dir(d2) == (c.has_dir(d2) || d2 == d),
{
}

/// Setting one more flag on a cell raises its flag count by one.
proof fn lemma_with_dir_count(c: Cell, d: Direction)
    requires
        !c.has_dir(d),
    ensures
        c.with_dir(d).link_count() == c.link_count() + 1,
{
}

/// Replacing one cell changes the total flag count by the difference
/// between the new cell's flags and the old cell's flags.
pub proof fn lemma_flag_count_update(s: Seq<Cell>, j: int, c: Cell)
    requires
        0 <= j < s.len(),
    ensures
        flag_count(s.update(j, c)) == flag_count(s) - s[j].link_count() + c.link_count(),
    decreases s.len(),
{
    let t = s.update(j, c);
    if j == s.len() - 1 {
        assert(t.drop_last() =~= s.drop_last());
    } else {
        assert(t.drop_last() =~= s.drop_last().update(j, c));
        lemma_flag_count_update(s.drop_last(), j, c);
    }
}

/// Opening one fresh passage (both endpoint flags previously unset) adds
/// exactly two to the total flag count.
pub proof fn lemma_link_flag_count(s: Seq<Cell>, i: int, j: int, d: Direction)
    requires
        0 <= i < s.len(),
        0 <= j < s.len(),
        i != j,
        !s[i].has_dir(d),
        !s[j].has_dir(d.opposite_spec()),
    ensures
        flag_count(
            s.update(i, s[i].with_dir(d)).update(j, s[j].with_dir(d.opposite_spec())),
        ) == flag_count(s) + 2,
{
    let s1 = s.update(i, s[i].with_dir(d));
    lemma_flag_count_update(s, i, s[i].with_dir(d));
    lemma_with_dir_count(s[i], d);
    assert(s1[j] == s[j]);
    lemma_flag_count_update(s1, j, s[j].with_dir(d.opposite_spec()));
    lemma_with_dir_count(s[j], d.opposite_spec());
}

/// A freshly opened passage keeps the link symmetry: the grid after
/// `link_cells(i, d)` is symmetric whenever the grid before it was.
pub proof fn lemma_link_preserves_symmetric(pre: Grid, post: Grid, i: int, d: Direction)
    requires
        pre.wf(),
        pre.link_symmetric(),
        pre.in_bounds(i),
        pre.valid_dir(i, d),
        post.width == pre.width,
        post.height == pre.height,
        post.cells@ == pre.cells@.update(i, pre.cells@[i].with_dir(d)).update(
            pre.nbr_of(i, d),
            pre.cells@[pre.nbr_of(i, d)].with_dir(d.opposite_spec()),
        ),
    ensures
        post.link_symmetric(),
{
    let j = pre.nbr_of(i, d);
    lemma_neighbor_symmetric(pre, i, d);
    assert(post.cells@.len() == pre.cells@.len());
    assert forall|k: int, d2: Direction|
        post.in_bounds(k) && #[trigger] post.cells@[k].has_dir(d2) implies post.valid_dir(k, d2)
        && post.cells@[post.nbr_of(k, d2)].has_dir(d2.opposite_spec()) by {
        if k == i && d2 == d {
            lemma_with_dir_has(pre.cells@[j], d.opposite_spec(), d.opposite_spec());
            assert(post.cells@[j].has_dir(d.opposite_spec()));
        } else if k == j && d2 == d.opposite_spec() {
            assert(d2.opposite_spec() == d);
            assert(post.nbr_of(k, d2) == i);
            lemma_with_dir_has(pre.cells@[i], d, d);
            assert(post.cells@[i].has_dir(d));
        } else {
            lemma_with_dir_has(pre.cells@[i], d, d2);
            lemma_with_dir_has(pre.cells@[j], d.opposite_spec(), d2);
            assert(pre.cells@[k].has_dir(d2));
            let t = pre.nbr_of(k, d2);
            assert(pre.valid_dir(k, d2) && pre.cells@[t].has_dir(d2.opposite_spec()));
            lemma_neighbor_symmetric(pre, k, d2);
            lemma_with_dir_has(pre.cells@[i], d, d2.opposite_spec());
            lemma_with_dir_has(pre.cells@[j], d.opposite_spec(), d2.opposite_spec());
            assert(post.cells@[t].has_dir(d2.opposite_spec()));
        }
    }
}

/// Everything a generation loop needs to know after one `link_cells`
/// call: exactly the two intended flags appear and nothing else changes,
/// link symmetry is preserved, and a fresh link (both endpoint flags
/// previously unset) raises the total flag count by exactly two.
pub proof fn lemma_link_effect(pre: Grid, post: Grid, i: int, d: Direction)
    requires
        pre.wf(),
        pre.in_bounds(i),
        pre.valid_dir(i, d),
        post.width == pre.width,
        post.height == pre.height,
        post.cells@ == pre.cells@.update(i, pre.cells@[i].with_dir(d)).update(
            pre.nbr_of(i, d),
            pre.cells@[pre.nbr_of(i, d)].with_dir(d.opposite_spec()),
        ),
    ensures
        post.cells@.len() == pre.cells@.len(),
        forall|k: int, d2: Direction|
            0 <= k < post.cells@.len() ==> (#[trigger] post.cells@[k].has_dir(d2) <==> (
            pre.cells@[k].has_dir(d2) || (k == i && d2 == d) || (k == pre.nbr_of(i, d) && d2
                == d.opposite_spec()))),
        pre.link_symmetric() ==> post.link_symmetric(),
        !pre.cells@[i].has_dir(d) && !pre.cells@[pre.nbr_of(i, d)].has_dir(d.opposite_spec())
            ==> flag_count(post.cells@) == flag_count(pre.cells@) + 2,
{
    let j = pre.nbr_of(i, d);
    lemma_neighbor_symmetric(pre, i, d);
    assert forall|k: int, d2: Direction| 0 <= k < post.cells@.len() implies (
    #[trigger] post.cells@[k].has_dir(d2) <==> (pre.cells@[k].has_dir(d2) || (k == i && d2 == d)
        || (k == j && d2 == d.opposite_spec()))) by {
        lemma_with_dir_has(pre.cells@[i], d, d2);
        lemma_with_dir_has(pre.cells@[j], d.opposite_spec(), d2);
    }
    if pre.link_symmetric() {
        lemma_link_preserves_symmetric(pre, post, i, d);
    }
    if !pre.cells@[i].has_dir(d) && !pre.cells@[j].has_dir(d.opposite_spec()) {
        lemma_link_flag_count(pre.cells@, i, j, d);
    }
}

/// A sequence of fully walled cells has no flags set.
proof fn lemma_flag_count_all_empty(s: Seq<Cell>)
    requires
        forall|i: int| 0 <= i < s.len() ==> s[i] == Cell::empty_spec(),
    ensures
        flag_count(s) == 0,
    decreases s.len(),
{
    if s.len() > 0 {
        lemma_flag_count_all_empty(s.drop_last());
    }
}

} // verus!
