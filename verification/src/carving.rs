//! Shared machinery for the algorithms that grow a visited region cell by
//! cell: the visited-count model, the invariant tying open links to the
//! visited region, and a deterministic completion sweep with the graph
//! fact it rests on (a partly visited grid always has an unvisited cell
//! next to a visited one).

use vstd::prelude::*;
use vstd::arithmetic::div_mod::lemma_small_mod;
use crate::connect::{lemma_region_grow, region_connected};
use crate::grid::{Cell, Direction, Grid, flag_count, lemma_link_effect};

verus! {

/// How many cells are marked visited.
pub open spec fn count_visited(s: Seq<bool>) -> int
    decreases s.len(),
{
    if s.len() == 0 {
        0
    } else {
        count_visited(s.drop_last()) + if s.last() {
            1int
        } else {
            0int
        }
    }
}

/// Every open link lies on a visited cell: the carved passages never
/// leave the visited region.
pub open spec fn links_within(g: Grid, vis: Seq<bool>) -> bool {
    forall|k: int, d: Direction|
        0 <= k < g.cells@.len() && #[trigger] g.cells@[k].has_dir(d) ==> vis[k]
}

/// The state every region-growing algorithm maintains between carving
/// steps: a well-formed, link-symmetric grid whose links all lie inside
/// the visited region and number exactly one passage less than the
/// visited cells, as a spanning tree of the region demands.
pub open spec fn region_inv(g: Grid, vis: Seq<bool>, cnt: int) -> bool {
    &&& g.wf()
    &&& vis.len() == g.cells@.len()
    &&& cnt == count_visited(vis)
    &&& 1 <= cnt <= g.cells@.len()
    &&& flag_count(g.cells@) == 2 * (cnt - 1)
    &&& g.link_symmetric()
    &&& links_within(g, vis)
}

/// Cell `x` is unvisited and moving from it in direction `d` reaches a
/// visited cell.
pub open spec fn boundary_at(g: Grid, vis: Seq<bool>, x: int, d: Direction) -> bool {
    &&& g.in_bounds(x)
    &&& !vis[x]
    &&& g.valid_dir(x, d)
    &&& vis[g.nbr_of(x, d)]
}

pub proof fn lemma_count_visited_all_false(s: Seq<bool>)
    requires
        forall|i: int| 0 <= i < s.len() ==> !s[i],
    ensures
        count_visited(s) == 0,
    decreases s.len(),
{
    if s.len() > 0 {
        lemma_count_visited_all_false(s.drop_last());
    }
}

/// Marking one unvisited cell raises the visited count by one.
pub proof fn lemma_count_visited_mark(s: Seq<bool>, j: int)
    requires
        0 <= j < s.len(),
        !s[j],
    ensures
        count_visited(s.update(j, true)) == count_visited(s) + 1,
    decreases s.len(),
{
    let t = s.update(j, true);
    if j == s.len() - 1 {
        assert(t.drop_last() =~= s.drop_last());
    } else {
        assert(t.drop_last() =~= s.drop_last().update(j, true));
        lemma_count_visited_mark(s.drop_last(), j);
    }
}

pub proof fn lemma_count_visited_bounds(s: Seq<bool>)
    ensures
        0 <= count_visited(s) <= s.len(),
    decreases s.len(),
{
    if s.len() > 0 {
        lemma_count_visited_bounds(s.drop_last());
    }
}

/// A full visited count marks every cell.
pub proof fn lemma_count_full_all_visited(s: Seq<bool>)
    requires
        count_visited(s) == s.len(),
    ensures
        forall|i: int| 0 <= i < s.len() ==> s[i],
    decreases s.len(),
{
    if s.len() > 0 {
        lemma_count_visited_bounds(s.drop_last());
        lemma_count_full_all_visited(s.drop_last());
        assert forall|i: int| 0 <= i < s.len() implies s[i] by {
            if i < s.len() - 1 {
                assert(s.drop_last()[i]);
            }
        }
    }
}

/// Fewer visited cells than cells at all: some cell is unvisited.
pub proof fn lemma_count_lt_exists_unvisited(s: Seq<bool>)
    requires
        count_visited(s) < s.len(),
    ensures
        exists|i: int| 0 <= i < s.len() && !s[i],
    decreases s.len(),
{
    if s.len() > 0 {
        if !s.last() {
            assert(!s[s.len() - 1]);
        } else {
            lemma_count_lt_exists_unvisited(s.drop_last());
            let i = choose|i: int| 0 <= i < s.drop_last().len() && !s.drop_last()[i];
            assert(!s[i]);
        }
    }
}

/// A cell that is still unvisited keeps the visited count below the
/// total.
pub proof fn lemma_unvisited_count_lt(s: Seq<bool>, j: int)
    requires
        0 <= j < s.len(),
        !s[j],
    ensures
        count_visited(s) < s.len(),
    decreases s.len(),
{
    if j == s.len() - 1 {
        lemma_count_visited_bounds(s.drop_last());
    } else {
        lemma_unvisited_count_lt(s.drop_last(), j);
    }
}

/// Whether the worklist holds the cell index `v`.
pub open spec fn holds_cell(s: Seq<usize>, v: int) -> bool {
    exists|m: int| 0 <= m < s.len() && s[m] == v
}

pub proof fn lemma_holds_cell_push(s: Seq<usize>, x: usize, v: int)
    requires
        holds_cell(s, v),
    ensures
        holds_cell(s.push(x), v),
{
    let m = choose|m: int| 0 <= m < s.len() && s[m] == v;
    assert(s.push(x)[m] == v);
}

/// Taking away one entry that is not `v` leaves `v` in the worklist,
/// whether the entry removed is the last one or an inner one.
pub proof fn lemma_holds_cell_remove(s: Seq<usize>, idx: int, v: int)
    requires
        holds_cell(s, v),
        0 <= idx < s.len(),
        s[idx] != v,
    ensures
        holds_cell(s.remove(idx), v),
{
    let m = choose|m: int| 0 <= m < s.len() && s[m] == v;
    if m < idx {
        assert(s.remove(idx)[m] == v);
    } else {
        assert(s.remove(idx)[m - 1] == v);
    }
}

/// Swapping the last entry into place `idx` and dropping the tail — the
/// cheap removal — keeps every other value in the worklist.
pub proof fn lemma_holds_cell_swap_remove(s: Seq<usize>, idx: int, v: int)
    requires
        holds_cell(s, v),
        0 <= idx < s.len(),
        s[idx] != v,
    ensures
        holds_cell(s.update(idx, s.last()).drop_last(), v),
{
    let t = s.update(idx, s.last()).drop_last();
    let m = choose|m: int| 0 <= m < s.len() && s[m] == v;
    if m == s.len() - 1 {
        assert(t[idx] == v);
    } else {
        assert(t[m] == v);
    }
}

pub proof fn lemma_holds_cell_pop(s: Seq<usize>, v: int)
    requires
        holds_cell(s, v),
        s.len() > 0,
        s[s.len() - 1] != v,
    ensures
        holds_cell(s.subrange(0, s.len() - 1), v),
{
    let m = choose|m: int| 0 <= m < s.len() && s[m] == v;
    assert(s.subrange(0, s.len() - 1)[m] == v);
}

/// A worklist entry survives in any extension that keeps the prefix.
pub proof fn lemma_holds_cell_extend(s1: Seq<usize>, s2: Seq<usize>, v: int)
    requires
        holds_cell(s1, v),
        s1.len() <= s2.len(),
        forall|j: int| 0 <= j < s1.len() ==> s2[j] == s1[j],
    ensures
        holds_cell(s2, v),
{
    let m = choose|m: int| 0 <= m < s1.len() && s1[m] == v;
    assert(s2[m] == v);
}

/// Every frontier entry is a cell of the grid, and an entry that is still
/// unvisited has at least one visited neighbor to be linked to when it is
/// hunted.
pub open spec fn frontier_entries_ok(g: Grid, vis: Seq<bool>, f: Seq<usize>) -> bool {
    forall|m: int|
        0 <= m < f.len() ==> (#[trigger] f[m]) < g.cells@.len() && (vis[f[m] as int]
            || exists|d: Direction|
            g.valid_dir(f[m] as int, d) && vis[g.nbr_of(f[m] as int, d)])
}

/// Every unvisited cell that touches the visited region is on the
/// frontier: nothing reachable can be forgotten.
pub open spec fn frontier_covers(g: Grid, vis: Seq<bool>, f: Seq<usize>) -> bool {
    forall|u: int, d: Direction|
        0 <= u < g.cells@.len() && !vis[u] && #[trigger] g.valid_dir(u, d) && vis[g.nbr_of(u, d)]
            ==> holds_cell(f, u)
}

/// As `frontier_covers`, except that adjacency through the cell `c` — the
/// cell the walk has just arrived at, whose neighbors are pushed at the
/// start of its walk step — does not count yet.
pub open spec fn frontier_covers_except(g: Grid, vis: Seq<bool>, f: Seq<usize>, c: int) -> bool {
    forall|u: int, d: Direction|
        0 <= u < g.cells@.len() && !vis[u] && #[trigger] g.valid_dir(u, d) && vis[g.nbr_of(u, d)]
            && g.nbr_of(u, d) != c ==> holds_cell(f, u)
}

/// Takes the smallest entry out of the frontier and returns it.
pub(crate) fn pop_min(frontier: &mut Vec<usize>) -> (r: usize)
    requires
        old(frontier)@.len() > 0,
    ensures
        exists|m: int|
            0 <= m < old(frontier)@.len() && old(frontier)@[m] == r && final(frontier)@ == old(
                frontier,
            )@.remove(m),
        forall|m: int| 0 <= m < old(frontier)@.len() ==> r <= #[trigger] old(frontier)@[m],
{
    let mut best: usize = 0;
    let mut m: usize = 1;
    while m < frontier.len()
        invariant
            frontier@ == old(frontier)@,
            frontier@.len() > 0,
            best < frontier@.len(),
            m <= frontier@.len(),
            forall|j: int| 0 <= j < m ==> frontier@[best as int] <= #[trigger] frontier@[j],
        decreases frontier@.len() - m,
    {
        if frontier[m] < frontier[best] {
            best = m;
        }
        m = m + 1;
    }
    let r = frontier[best];
    frontier.remove(best);
    proof {
        assert(old(frontier)@[best as int] == r && frontier@ == old(frontier)@.remove(best as int));
    }
    r
}

/// At least one visited cell: some cell is visited.
pub proof fn lemma_count_pos_exists_visited(s: Seq<bool>)
    requires
        count_visited(s) >= 1,
    ensures
        exists|i: int| 0 <= i < s.len() && s[i],
    decreases s.len(),
{
    if s.len() > 0 {
        if s.last() {
            assert(s[s.len() - 1]);
        } else {
            lemma_count_pos_exists_visited(s.drop_last());
            let i = choose|i: int| 0 <= i < s.drop_last().len() && s.drop_last()[i];
            assert(s[i]);
        }
    }
}

/// Walking west to column zero and then north to cell zero connects every
/// cell to cell zero; so whenever a cell's mark differs from cell zero's,
/// somewhere along that walk an unvisited cell touches a visited one.
proof fn lemma_walk_to_origin_crossing(g: Grid, vis: Seq<bool>, x: int)
    requires
        g.wf(),
        vis.len() == g.cells@.len(),
        g.in_bounds(x),
        vis[x] != vis[0],
    ensures
        exists|c: int, d: Direction| boundary_at(g, vis, c, d),
    decreases x,
{
    let w = g.width as int;
    assert(x != 0);
    if x % w != 0 {
        let y = x - 1;
        assert(g.valid_dir(x, Direction::West));
        assert(g.valid_dir(y, Direction::East));
        if vis[y] == vis[x] {
            lemma_walk_to_origin_crossing(g, vis, y);
        } else {
            if !vis[x] {
                assert(boundary_at(g, vis, x, Direction::West));
            } else {
                assert(boundary_at(g, vis, y, Direction::East));
            }
        }
    } else {
        if x < w {
            lemma_small_mod(x as nat, w as nat);
        }
        let y = x - w;
        assert(g.valid_dir(x, Direction::North));
        assert(g.valid_dir(y, Direction::South));
        if vis[y] == vis[x] {
            lemma_walk_to_origin_crossing(g, vis, y);
        } else {
            if !vis[x] {
                assert(boundary_at(g, vis, x, Direction::North));
            } else {
                assert(boundary_at(g, vis, y, Direction::South));
            }
        }
    }
}

/// A partly visited grid always has a boundary: an unvisited cell with a
/// visited neighbor. This is the connectivity of the grid graph itself.
pub proof fn lemma_boundary_exists(g: Grid, vis: Seq<bool>)
    requires
        g.wf(),
        vis.len() == g.cells@.len(),
        1 <= count_visited(vis),
        count_visited(vis) < vis.len(),
    ensures
        exists|c: int, d: Direction| boundary_at(g, vis, c, d),
{
    lemma_count_lt_exists_unvisited(vis);
    lemma_count_pos_exists_visited(vis);
    let u = choose|i: int| 0 <= i < vis.len() && !vis[i];
    let v = choose|i: int| 0 <= i < vis.len() && vis[i];
    if vis[0] {
        lemma_walk_to_origin_crossing(g, vis, u);
    } else {
        lemma_walk_to_origin_crossing(g, vis, v);
    }
}

impl Grid {
    /// Scans for the first unvisited cell that touches the visited
    /// region, trying directions in the fixed order north, south, east,
    /// west. The caller must know a boundary exists; the scan returns one.
    fn find_boundary(&self, visited: &Vec<bool>) -> (r: (usize, Direction))
        requires
            self.wf(),
            visited@.len() == self.cells@.len(),
            exists|c: int, d: Direction| boundary_at(*self, visited@, c, d),
        ensures
            boundary_at(*self, visited@, r.0 as int, r.1),
    {
        let ghost (wc, wd): (int, Direction) = choose|c: int, d: Direction|
            boundary_at(*self, visited@, c, d);
        let n = self.cells.len();
        let mut i: usize = 0;
        while i < n
            invariant
                self.wf(),
                visited@.len() == self.cells@.len(),
                n == self.cells@.len(),
                boundary_at(*self, visited@, wc, wd),
                0 <= i <= wc < n,
            decreases n - i,
        {
            if !visited[i] {
                if self.valid_direction(i, Direction::North) {
                    let j = self.neighbor(i, Direction::North);
                    if visited[j] {
                        return (i, Direction::North);
                    }
                }
                if self.valid_direction(i, Direction::South) {
                    let j = self.neighbor(i, Direction::South);
                    if visited[j] {
                        return (i, Direction::South);
                    }
                }
                if self.valid_direction(i, Direction::East) {
                    let j = self.neighbor(i, Direction::East);
                    if visited[j] {
                        return (i, Direction::East);
                    }
                }
                if self.valid_direction(i, Direction::West) {
                    let j = self.neighbor(i, Direction::West);
                    if visited[j] {
                        return (i, Direction::West);
                    }
                }
            }
            proof {
                if i as int == wc {
                    assert(false);
                }
            }
            i = i + 1;
        }
        proof {
            assert(false);
        }
        (0, Direction::North)
    }

    /// Deterministically attaches every remaining unvisited cell to the
    /// visited region, one boundary cell at a time, and returns the new
    /// visited count: the whole grid. The random walks run on an enormous
    /// but finite step budget so that their termination can be checked;
    /// if that budget ever ran out, this sweep would finish the spanning
    /// tree.
    pub(crate) fn attach_unvisited(&mut self, visited: &mut Vec<bool>, count: usize) -> (r: usize)
        requires
            region_inv(*old(self), old(visited)@, count as int),
        ensures
            final(self).width == old(self).width,
            final(self).height == old(self).height,
            region_inv(*final(self), final(visited)@, r as int),
            r == final(self).cells@.len(),
            region_connected(*old(self), old(visited)@) ==> region_connected(
                *final(self),
                final(visited)@,
            ),
    {
        let ghost conn0: bool = region_connected(*self, visited@);
        let ghost w0: usize = self.width;
        let ghost h0: usize = self.height;
        let n = self.cells.len();
        let mut cnt = count;
        while cnt < n
            invariant
                self.width == w0,
                self.height == h0,
                n == self.cells@.len(),
                visited@.len() == n,
                cnt <= n,
                region_inv(*self, visited@, cnt as int),
                conn0 ==> region_connected(*self, visited@),
            decreases n - cnt,
        {
            proof {
                lemma_boundary_exists(*self, visited@);
            }
            let (u, d) = self.find_boundary(visited);
            let ghost pre = *self;
            let ghost prevision = visited@;
            proof {
                crate::grid::lemma_neighbor_symmetric(pre, u as int, d);
                let t = pre.nbr_of(u as int, d);
                assert(!pre.cells@[u as int].has_dir(d));
                if pre.cells@[t].has_dir(d.opposite_spec()) {
                    assert(pre.cells@[u as int].has_dir(d.opposite_spec().opposite_spec()));
                }
                assert(!pre.cells@[t].has_dir(d.opposite_spec()));
            }
            self.link_cells(u, d);
            visited[u] = true;
            cnt = cnt + 1;
            proof {
                lemma_link_effect(pre, *self, u as int, d);
                lemma_count_visited_mark(prevision, u as int);
                if conn0 {
                    lemma_region_grow(pre, *self, prevision, u as int, d, u as int);
                }
            }
        }
        cnt
    }
}

} // verus!
