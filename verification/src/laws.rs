//! Cross-cutting guarantees of a carved maze, stated over the facts that
//! every generation algorithm ensures: a well-formed grid, symmetric
//! links, and a flag count of exactly `2 * (width * height) - 2`.

use vstd::prelude::*;
use vstd::arithmetic::div_mod::lemma_mod_self_0;
use crate::grid::{Cell, Direction, Grid, flag_count, lemma_neighbor_symmetric};

verus! {

/// Links always exist as a pair: a cell has its flag for a legal move
/// exactly when the neighbor it reaches has the opposite flag.
pub proof fn lemma_link_pairing(g: Grid, i: int, d: Direction)
    requires
        g.wf(),
        g.link_symmetric(),
        g.in_bounds(i),
        g.valid_dir(i, d),
    ensures
        g.cells@[i].has_dir(d) <==> g.cells@[g.nbr_of(i, d)].has_dir(d.opposite_spec()),
{
    lemma_neighbor_symmetric(g, i, d);
    if g.cells@[g.nbr_of(i, d)].has_dir(d.opposite_spec()) {
        assert(g.cells@[g.nbr_of(g.nbr_of(i, d), d.opposite_spec())].has_dir(
            d.opposite_spec().opposite_spec(),
        ));
    }
}

/// The northeastern corner cell never holds a north or east passage:
/// both moves would leave the grid, and in a symmetric grid every set
/// flag points inward.
pub proof fn lemma_northeast_corner_closed(g: Grid)
    requires
        g.wf(),
        g.link_symmetric(),
    ensures
        !g.cells@[g.width - 1].has_dir(Direction::North),
        !g.cells@[g.width - 1].has_dir(Direction::East),
{
    let w = g.width as int;
    assert(w <= g.cells@.len()) by (nonlinear_arith)
        requires
            w == g.width as int,
            g.cells@.len() == g.width * g.height,
            g.width >= 1,
            g.height >= 1,
    ;
    lemma_mod_self_0(w);
    if g.cells@[w - 1].has_dir(Direction::North) {
        assert(g.valid_dir(w - 1, Direction::North));
    }
    if g.cells@[w - 1].has_dir(Direction::East) {
        assert(g.valid_dir(w - 1, Direction::East));
    }
}

/// How many cells of a sequence hold an east flag.
pub open spec fn east_links(s: Seq<Cell>) -> int
    decreases s.len(),
{
    if s.len() == 0 {
        0
    } else {
        east_links(s.drop_last()) + if s.last().east {
            1int
        } else {
            0int
        }
    }
}

proof fn lemma_east_links_bound(s: Seq<Cell>)
    ensures
        east_links(s) <= s.len(),
    decreases s.len(),
{
    if s.len() > 0 {
        lemma_east_links_bound(s.drop_last());
    }
}

proof fn lemma_east_links_full(s: Seq<Cell>)
    requires
        east_links(s) == s.len(),
    ensures
        forall|i: int| 0 <= i < s.len() ==> (#[trigger] s[i]).east,
    decreases s.len(),
{
    if s.len() > 0 {
        lemma_east_links_bound(s.drop_last());
        lemma_east_links_full(s.drop_last());
        assert forall|i: int| 0 <= i < s.len() implies (#[trigger] s[i]).east by {
            if i < s.len() - 1 {
                assert(s.drop_last()[i].east);
            }
        }
    }
}

/// In a single-row grid the total flag count is twice the number of east
/// flags short of the last cell's, which cannot be set at all.
proof fn lemma_row_count(g: Grid, k: int)
    requires
        g.wf(),
        g.height == 1,
        g.link_symmetric(),
        0 <= k <= g.width,
    ensures
        flag_count(g.cells@.take(k)) == 2 * east_links(g.cells@.take(k)) - (if k >= 1
            && g.cells@[k - 1].east {
            1int
        } else {
            0int
        }),
    decreases k,
{
    let w = g.width as int;
    assert(g.cells@.len() == w) by (nonlinear_arith)
        requires
            w == g.width as int,
            g.cells@.len() == g.width * g.height,
            g.height == 1,
    ;
    if k == 0 {
        assert(g.cells@.take(0) =~= Seq::<Cell>::empty());
    } else {
        lemma_row_count(g, k - 1);
        let s = g.cells@.take(k);
        assert(s.drop_last() =~= g.cells@.take(k - 1));
        assert(s.last() == g.cells@[k - 1]);
        let c = g.cells@[k - 1];
        // a single row leaves no room for north or south flags
        if c.has_dir(Direction::North) {
            assert(g.valid_dir(k - 1, Direction::North));
        }
        if c.has_dir(Direction::South) {
            assert(g.valid_dir(k - 1, Direction::South));
        }
        // the west flag mirrors the east flag of the cell before
        if k == 1 {
            assert(0int % w == 0);
            if c.has_dir(Direction::West) {
                assert(g.valid_dir(0, Direction::West));
            }
            assert(c.link_count() == if c.east {
                1int
            } else {
                0int
            });
        } else {
            vstd::arithmetic::div_mod::lemma_small_mod((k - 1) as nat, w as nat);
            assert(g.valid_dir(k - 2, Direction::East));
            lemma_link_pairing(g, k - 2, Direction::East);
            if c.has_dir(Direction::West) {
                assert(g.valid_dir(k - 1, Direction::West));
                lemma_neighbor_symmetric(g, k - 1, Direction::West);
                assert(g.cells@[k - 2].has_dir(Direction::East));
            }
            if g.cells@[k - 2].east {
                assert(g.cells@[k - 1].has_dir(Direction::West));
            }
            assert(c.link_count() == (if c.east {
                1int
            } else {
                0int
            }) + (if g.cells@[k - 2].east {
                1int
            } else {
                0int
            }));
        }
    }
}

/// A single-row maze is one straight corridor: every pair of side-by-side
/// cells is linked east to west, and no cell opens north or south.
pub proof fn lemma_single_row_corridor(g: Grid)
    requires
        g.wf(),
        g.height == 1,
        g.link_symmetric(),
        flag_count(g.cells@) == 2 * (g.width * g.height) - 2,
    ensures
        forall|i: int|
            0 <= i < g.width - 1 ==> (#[trigger] g.cells@[i]).has_dir(Direction::East)
                && g.cells@[i + 1].has_dir(Direction::West),
        forall|i: int|
            0 <= i < g.width ==> !(#[trigger] g.cells@[i]).has_dir(Direction::North)
                && !g.cells@[i].has_dir(Direction::South),
{
    let w = g.width as int;
    assert(g.cells@.len() == w) by (nonlinear_arith)
        requires
            w == g.width as int,
            g.cells@.len() == g.width * g.height,
            g.height == 1,
    ;
    assert forall|i: int| 0 <= i < w implies !(#[trigger] g.cells@[i]).has_dir(Direction::North)
        && !g.cells@[i].has_dir(Direction::South) by {
        if g.cells@[i].has_dir(Direction::North) {
            assert(g.valid_dir(i, Direction::North));
        }
        if g.cells@[i].has_dir(Direction::South) {
            assert(g.valid_dir(i, Direction::South));
        }
    }
    lemma_row_count(g, w);
    assert(g.cells@.take(w) =~= g.cells@);
    lemma_northeast_corner_closed(g);
    assert(east_links(g.cells@) == w - 1);
    // every east flag but the impossible last one must be set
    let body = g.cells@.take(w - 1);
    assert(g.cells@ =~= body.push(g.cells@[w - 1]));
    assert(g.cells@.drop_last() =~= body);
    assert(east_links(body) == w - 1);
    lemma_east_links_full(body);
    assert forall|i: int| 0 <= i < w - 1 implies (#[trigger] g.cells@[i]).has_dir(Direction::East)
        && g.cells@[i + 1].has_dir(Direction::West) by {
        assert(body[i].east);
        assert(g.valid_dir(i, Direction::East)) by {
            assert(g.cells@[i].has_dir(Direction::East));
        }
        lemma_link_pairing(g, i, Direction::East);
    }
}

} // verus!
