//! Reachability through open passages, and the fact that growing a
//! connected visited region one fresh link at a time keeps it connected.

use vstd::prelude::*;
use vstd::arithmetic::div_mod::{
    lemma_div_pos_is_pos, lemma_fundamental_div_mod, lemma_fundamental_div_mod_converse,
    lemma_mod_bound, lemma_mod_multiples_basic,
};
use crate::grid::{Direction, Grid, lemma_neighbor_symmetric};

verus! {

/// An open passage leads from cell `a` to cell `b`.
pub open spec fn open_step(g: Grid, a: int, b: int) -> bool {
    exists|d: Direction|
        g.in_bounds(a) && g.valid_dir(a, d) && (#[trigger] g.cells@[a].has_dir(d)) && g.nbr_of(
            a,
            d,
        ) == b
}

/// A walk along open passages.
pub open spec fn is_open_path(g: Grid, p: Seq<int>) -> bool {
    &&& p.len() >= 1
    &&& forall|i: int| 0 <= i < p.len() ==> g.in_bounds(#[trigger] p[i])
    &&& forall|i: int| 0 <= i < p.len() - 1 ==> open_step(g, #[trigger] p[i], p[i + 1])
}

/// Cell `b` can be reached from cell `a` through open passages.
pub open spec fn connected_cells(g: Grid, a: int, b: int) -> bool {
    exists|p: Seq<int>| is_open_path(g, p) && p.first() == a && p.last() == b
}

/// Every cell reaches every other through open passages.
pub open spec fn maze_connected(g: Grid) -> bool {
    forall|a: int, b: int|
        g.in_bounds(a) && g.in_bounds(b) ==> connected_cells(g, a, b)
}

/// All visited cells reach each other through open passages.
pub open spec fn region_connected(g: Grid, vis: Seq<bool>) -> bool {
    forall|v: int, w: int|
        0 <= v < g.cells@.len() && 0 <= w < g.cells@.len() && vis[v] && vis[w]
            ==> connected_cells(g, v, w)
}

pub proof fn lemma_connected_refl(g: Grid, a: int)
    requires
        g.in_bounds(a),
    ensures
        connected_cells(g, a, a),
{
    let p = seq![a];
    assert(is_open_path(g, p));
    assert(p.first() == a && p.last() == a);
}

/// A reachable cell's open passage reaches one more cell.
pub proof fn lemma_connected_step(g: Grid, a: int, b: int, d: Direction)
    requires
        connected_cells(g, a, b),
        g.in_bounds(b),
        g.valid_dir(b, d),
        g.cells@[b].has_dir(d),
        g.wf(),
    ensures
        connected_cells(g, a, g.nbr_of(b, d)),
{
    lemma_neighbor_symmetric(g, b, d);
    let c = g.nbr_of(b, d);
    let p = choose|p: Seq<int>| is_open_path(g, p) && p.first() == a && p.last() == b;
    let q = p.push(c);
    assert(open_step(g, b, c));
    assert forall|i: int| 0 <= i < q.len() - 1 implies open_step(g, #[trigger] q[i], q[i + 1]) by {
        if i < p.len() - 1 {
            assert(q[i] == p[i] && q[i + 1] == p[i + 1]);
        } else {
            assert(q[i] == b && q[i + 1] == c);
        }
    }
    assert(is_open_path(g, q) && q.first() == a && q.last() == c);
}

/// Reachability runs through intermediate cells.
pub proof fn lemma_connected_trans(g: Grid, a: int, b: int, c: int)
    requires
        connected_cells(g, a, b),
        connected_cells(g, b, c),
    ensures
        connected_cells(g, a, c),
{
    let p = choose|p: Seq<int>| is_open_path(g, p) && p.first() == a && p.last() == b;
    let q = choose|q: Seq<int>| is_open_path(g, q) && q.first() == b && q.last() == c;
    let r = p + q.drop_first();
    assert(r.len() == p.len() + q.len() - 1);
    assert forall|i: int| 0 <= i < r.len() implies g.in_bounds(#[trigger] r[i]) by {
        if i < p.len() {
            assert(r[i] == p[i]);
        } else {
            assert(r[i] == q[i - p.len() + 1]);
        }
    }
    assert forall|i: int| 0 <= i < r.len() - 1 implies open_step(g, #[trigger] r[i], r[i + 1]) by {
        if i < p.len() - 1 {
            assert(r[i] == p[i] && r[i + 1] == p[i + 1]);
        } else if i == p.len() - 1 {
            if q.len() == 1 {
                assert(false);
            } else {
                assert(r[i] == p[i] && p[i] == b && q[0] == b);
                assert(r[i + 1] == q[1]);
                assert(open_step(g, q[0], q[1]));
            }
        } else {
            assert(r[i] == q[i - p.len() + 1] && r[i + 1] == q[i - p.len() + 2]);
            assert(open_step(g, q[i - p.len() + 1], q[i - p.len() + 2]));
        }
    }
    assert(is_open_path(g, r) && r.first() == a && r.last() == c);
}

proof fn lemma_path_reverse(g: Grid, p: Seq<int>)
    requires
        g.wf(),
        g.link_symmetric(),
        is_open_path(g, p),
    ensures
        connected_cells(g, p.last(), p.first()),
    decreases p.len(),
{
    if p.len() == 1 {
        lemma_connected_refl(g, p.first());
    } else {
        let rest = p.drop_first();
        assert forall|i: int| 0 <= i < rest.len() - 1 implies open_step(
            g,
            #[trigger] rest[i],
            rest[i + 1],
        ) by {
            assert(rest[i] == p[i + 1] && rest[i + 1] == p[i + 2]);
            assert(open_step(g, p[i + 1], p[i + 2]));
        }
        assert(is_open_path(g, rest));
        lemma_path_reverse(g, rest);
        assert(connected_cells(g, p.last(), p[1]));
        let d = choose|d: Direction|
            g.in_bounds(p[0]) && g.valid_dir(p[0], d) && (#[trigger] g.cells@[p[0]].has_dir(d))
                && g.nbr_of(p[0], d) == p[1];
        assert(open_step(g, p[0], p[1]));
        lemma_neighbor_symmetric(g, p[0], d);
        assert(g.cells@[p[1]].has_dir(d.opposite_spec()));
        lemma_connected_step(g, p.last(), p[1], d.opposite_spec());
    }
}

/// In a symmetric grid, reachability runs both ways.
pub proof fn lemma_connected_sym(g: Grid, a: int, b: int)
    requires
        g.wf(),
        g.link_symmetric(),
        connected_cells(g, a, b),
    ensures
        connected_cells(g, b, a),
{
    let p = choose|p: Seq<int>| is_open_path(g, p) && p.first() == a && p.last() == b;
    lemma_path_reverse(g, p);
}

/// Opening more passages never breaks reachability.
pub proof fn lemma_connected_monotone(g1: Grid, g2: Grid, a: int, b: int)
    requires
        connected_cells(g1, a, b),
        g2.width == g1.width,
        g2.height == g1.height,
        g2.cells@.len() == g1.cells@.len(),
        forall|k: int, d: Direction|
            0 <= k < g1.cells@.len() && (#[trigger] g1.cells@[k].has_dir(d))
                ==> g2.cells@[k].has_dir(d),
    ensures
        connected_cells(g2, a, b),
{
    let p = choose|p: Seq<int>| is_open_path(g1, p) && p.first() == a && p.last() == b;
    assert forall|i: int| 0 <= i < p.len() - 1 implies open_step(g2, #[trigger] p[i], p[i + 1]) by {
        let d = choose|d: Direction|
            g1.in_bounds(p[i]) && g1.valid_dir(p[i], d) && (#[trigger] g1.cells@[p[i]].has_dir(d))
                && g1.nbr_of(p[i], d) == p[i + 1];
        assert(g2.cells@[p[i]].has_dir(d));
        assert(g2.valid_dir(p[i], d) && g2.nbr_of(p[i], d) == p[i + 1]);
    }
    assert(is_open_path(g2, p));
}

/// Every cell of a grid in which each cell but the northeastern corner
/// opens north or east reaches that corner: both moves strictly approach
/// it, row by row and column by column.
proof fn lemma_reach_corner(g: Grid, a: int)
    requires
        g.wf(),
        g.link_symmetric(),
        forall|k: int|
            0 <= k < g.cells@.len() && k != g.width - 1 ==> (#[trigger] g.cells@[k]).has_dir(
                Direction::North,
            ) || g.cells@[k].has_dir(Direction::East),
        g.in_bounds(a),
    ensures
        connected_cells(g, a, g.width - 1),
    decreases a / (g.width as int) * (g.width as int) + (g.width as int - 1 - a % (
    g.width as int)),
{
    let w = g.width as int;
    lemma_mod_bound(a, w);
    lemma_fundamental_div_mod(a, w);
    lemma_div_pos_is_pos(a, w);
    let col = a % w;
    let row = a / w;
    if a == w - 1 {
        lemma_connected_refl(g, a);
    } else if g.cells@[a].has_dir(Direction::East) {
        assert(g.valid_dir(a, Direction::East));
        lemma_neighbor_symmetric(g, a, Direction::East);
        let b = a + 1;
        if col == w - 1 {
            assert(a + 1 == (row + 1) * w) by (nonlinear_arith)
                requires
                    a == w * row + col,
                    col == w - 1,
            ;
            lemma_mod_multiples_basic(row + 1, w);
            assert((a + 1) % w == 0);
        }
        assert(b == row * w + (col + 1)) by (nonlinear_arith)
            requires
                b == w * row + col + 1,
        ;
        lemma_fundamental_div_mod_converse(b, w, row, col + 1);
        lemma_reach_corner(g, b);
        lemma_connected_refl(g, a);
        lemma_connected_step(g, a, a, Direction::East);
        lemma_connected_trans(g, a, b, g.width - 1);
    } else {
        assert(g.cells@[a].has_dir(Direction::North));
        assert(g.valid_dir(a, Direction::North));
        let b = a - w;
        assert(row >= 1) by {
            if row == 0 {
                assert(a == w * 0 + col);
            }
        }
        assert(b == (row - 1) * w + col) by (nonlinear_arith)
            requires
                b == w * row + col - w,
        ;
        assert((row - 1) * w + (w - 1 - col) < row * w + (w - 1 - col)) by (nonlinear_arith)
            requires
                w >= 1,
        ;
        lemma_fundamental_div_mod_converse(b, w, row - 1, col);
        lemma_reach_corner(g, b);
        lemma_connected_refl(g, a);
        lemma_connected_step(g, a, a, Direction::North);
        lemma_connected_trans(g, a, b, g.width - 1);
    }
}

/// A grid in which every cell but the northeastern corner opens north or
/// east is connected: all cells reach the corner, and so each other.
pub proof fn lemma_north_east_spine_connected(g: Grid)
    requires
        g.wf(),
        g.link_symmetric(),
        forall|k: int|
            0 <= k < g.cells@.len() && k != g.width - 1 ==> (#[trigger] g.cells@[k]).has_dir(
                Direction::North,
            ) || g.cells@[k].has_dir(Direction::East),
    ensures
        maze_connected(g),
{
    let w = g.width as int;
    assert(g.in_bounds(w - 1)) by {
        assert(g.width * g.height >= g.width * 1) by (nonlinear_arith)
            requires
                g.height >= 1,
                g.width >= 1,
        ;
    }
    assert forall|a: int, b: int| g.in_bounds(a) && g.in_bounds(b) implies connected_cells(
        g,
        a,
        b,
    ) by {
        lemma_reach_corner(g, a);
        lemma_reach_corner(g, b);
        lemma_connected_sym(g, b, w - 1);
        lemma_connected_trans(g, a, w - 1, b);
    }
}

/// A stretch of cells each opening east forms one corridor: its west end
/// reaches its east end.
pub proof fn lemma_run_chain(g: Grid, lo: int, hi: int)
    requires
        g.wf(),
        g.link_symmetric(),
        g.in_bounds(lo),
        g.in_bounds(hi),
        lo <= hi,
        forall|k: int| lo <= k < hi ==> (#[trigger] g.cells@[k]).has_dir(Direction::East),
    ensures
        connected_cells(g, lo, hi),
    decreases hi - lo,
{
    if lo == hi {
        lemma_connected_refl(g, lo);
    } else {
        assert(g.cells@[lo].has_dir(Direction::East));
        assert(g.valid_dir(lo, Direction::East));
        lemma_neighbor_symmetric(g, lo, Direction::East);
        lemma_connected_refl(g, lo);
        lemma_connected_step(g, lo, lo, Direction::East);
        lemma_run_chain(g, lo + 1, hi);
        lemma_connected_trans(g, lo, lo + 1, hi);
    }
}

/// Opening more passages keeps a mutually reachable set of cells
/// mutually reachable.
pub proof fn lemma_region_monotone(g1: Grid, g2: Grid, vis: Seq<bool>)
    requires
        region_connected(g1, vis),
        g2.width == g1.width,
        g2.height == g1.height,
        g2.cells@.len() == g1.cells@.len(),
        forall|k: int, d: Direction|
            0 <= k < g1.cells@.len() && (#[trigger] g1.cells@[k].has_dir(d))
                ==> g2.cells@[k].has_dir(d),
    ensures
        region_connected(g2, vis),
{
    assert forall|v: int, w: int|
        0 <= v < g2.cells@.len() && 0 <= w < g2.cells@.len() && vis[v] && vis[w] implies
    connected_cells(g2, v, w) by {
        lemma_connected_monotone(g1, g2, v, w);
    }
}

/// Linking one fresh cell to a visited neighbor keeps the visited region
/// mutually reachable, with the fresh cell a member. The link runs from
/// `i` in direction `d`; `u` names whichever endpoint is the fresh cell,
/// the other being visited.
pub proof fn lemma_region_grow(pre: Grid, post: Grid, vis: Seq<bool>, i: int, d: Direction, u: int)
    requires
        pre.wf(),
        vis.len() == pre.cells@.len(),
        region_connected(pre, vis),
        pre.in_bounds(i),
        pre.valid_dir(i, d),
        post.width == pre.width,
        post.height == pre.height,
        post.cells@ == pre.cells@.update(i, pre.cells@[i].with_dir(d)).update(
            pre.nbr_of(i, d),
            pre.cells@[pre.nbr_of(i, d)].with_dir(d.opposite_spec()),
        ),
        u == i || u == pre.nbr_of(i, d),
        u == i ==> vis[pre.nbr_of(i, d)],
        u == pre.nbr_of(i, d) ==> vis[i],
    ensures
        region_connected(post, vis.update(u, true)),
{
    let j = pre.nbr_of(i, d);
    lemma_neighbor_symmetric(pre, i, d);
    crate::grid::lemma_link_effect(pre, post, i, d);
    assert(post.wf());
    assert(post.cells@[i].has_dir(d));
    assert(post.cells@[j].has_dir(d.opposite_spec()));
    assert(open_step(post, i, j));
    assert(open_step(post, j, i)) by {
        assert(post.valid_dir(j, d.opposite_spec()) && post.nbr_of(j, d.opposite_spec()) == i);
    }
    let vis2 = vis.update(u, true);
    let other = if u == i {
        j
    } else {
        i
    };
    assert forall|v: int, w: int|
        0 <= v < post.cells@.len() && 0 <= w < post.cells@.len() && vis2[v] && vis2[w] implies
    connected_cells(post, v, w) by {
        lemma_connected_refl(post, u);
        if v == u && w == u {
        } else if v == u {
            assert(vis[w] && vis[other]);
            if u == i {
                lemma_connected_step(post, u, u, d);
            } else {
                lemma_connected_step(post, u, u, d.opposite_spec());
            }
            assert(connected_cells(post, u, other));
            lemma_connected_monotone(pre, post, other, w);
            lemma_connected_trans(post, u, other, w);
        } else if w == u {
            assert(vis[v] && vis[other]);
            lemma_connected_monotone(pre, post, v, other);
            lemma_connected_refl(post, other);
            if u == i {
                lemma_connected_step(post, other, other, d.opposite_spec());
            } else {
                lemma_connected_step(post, other, other, d);
            }
            assert(connected_cells(post, other, u));
            lemma_connected_trans(post, v, other, u);
        } else {
            assert(vis[v] && vis[w]);
            lemma_connected_monotone(pre, post, v, w);
        }
    }
}

} // verus!
