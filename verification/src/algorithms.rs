//! The six randomized spanning-tree algorithms. Each one resets the grid
//! to the fully walled state and then carves a maze into it, drawing from
//! a generator built from the caller's optional seed.

use vstd::prelude::*;
use vstd::arithmetic::div_mod::{
    lemma_div_is_ordered, lemma_fundamental_div_mod, lemma_fundamental_div_mod_converse,
    lemma_mod_bound, lemma_mod_multiples_basic, lemma_mod_multiples_vanish, lemma_mod_self_0,
    lemma_small_mod,
};
use crate::carving::{
    boundary_at, count_visited, frontier_covers, frontier_covers_except, frontier_entries_ok,
    holds_cell, lemma_count_full_all_visited,
    lemma_boundary_exists, lemma_count_lt_exists_unvisited, lemma_count_visited_all_false,
    lemma_count_visited_mark, lemma_holds_cell_extend, lemma_holds_cell_pop,
    lemma_holds_cell_push, lemma_holds_cell_remove, lemma_holds_cell_swap_remove,
    lemma_unvisited_count_lt, links_within, pop_min, region_inv,
};
use crate::connect::{
    connected_cells, lemma_connected_monotone, lemma_connected_refl, lemma_connected_step,
    lemma_connected_sym, lemma_connected_trans, lemma_north_east_spine_connected,
    lemma_region_grow, lemma_region_monotone, lemma_run_chain, maze_connected, region_connected,
};
use crate::grid::{Cell, Direction, Grid, flag_count, lemma_link_effect, lemma_neighbor_symmetric};
use crate::rng::{coin_flip, get_rng, range_draw, rng_coin, rng_range, seeded_rng};
use rand_pcg::Lcg64Xsh32;

verus! {

/// One opened passage of the row-major carvers: the flag for `d` on cell
/// `i` and the opposite flag on the neighbor north or east of it, in a
/// grid `w` cells wide.
pub open spec fn carve_link(w: int, s: Seq<Cell>, i: int, d: Direction) -> Seq<Cell> {
    let j = if d == Direction::North {
        i - w
    } else {
        i + 1
    };
    s.update(i, s[i].with_dir(d)).update(j, s[j].with_dir(d.opposite_spec()))
}

/// The cell sequence and generator state after Binary Tree has processed
/// the first `k` cells of a fully walled grid `w` cells wide with `n`
/// cells, drawing from `rng0`. A seeded call carves exactly this sequence
/// in full: a pure function of the dimensions and the seed, which is what
/// makes seeded runs bit-for-bit reproducible.
pub open spec fn bt_cells(w: int, n: int, rng0: Lcg64Xsh32, k: int) -> (Seq<Cell>, Lcg64Xsh32)
    decreases k,
{
    if k <= 0 {
        (Seq::new(n as nat, |j: int| Cell::empty_spec()), rng0)
    } else {
        let prev = bt_cells(w, n, rng0, k - 1);
        let s = prev.0;
        let r = prev.1;
        let i = k - 1;
        let north_ok = i >= w;
        let east_ok = (i + 1) % w != 0;
        if north_ok && east_ok {
            let flip = coin_flip(r);
            if flip.0 {
                (carve_link(w, s, i, Direction::North), flip.1)
            } else {
                (carve_link(w, s, i, Direction::East), flip.1)
            }
        } else if north_ok {
            (carve_link(w, s, i, Direction::North), r)
        } else if east_ok {
            (carve_link(w, s, i, Direction::East), r)
        } else {
            (s, r)
        }
    }
}

/// The cell sequence, generator state and run start after Sidewinder has
/// processed the first `k` cells of a fully walled grid `w` cells wide
/// with `n` cells, drawing from `rng0`. As with [`bt_cells`], a seeded
/// call carves exactly this sequence in full.
pub open spec fn sw_cells(w: int, n: int, rng0: Lcg64Xsh32, k: int) -> (
    Seq<Cell>,
    Lcg64Xsh32,
    usize,
)
    decreases k,
{
    if k <= 0 {
        (Seq::new(n as nat, |j: int| Cell::empty_spec()), rng0, w as usize)
    } else {
        let prev = sw_cells(w, n, rng0, k - 1);
        let s = prev.0;
        let r = prev.1;
        let rs = prev.2;
        let i = k - 1;
        let north_ok = i >= w;
        let east_ok = (i + 1) % w != 0;
        if north_ok && east_ok {
            let flip = coin_flip(r);
            if flip.0 {
                let pick = range_draw(flip.1, rs, (i + 1) as usize);
                (carve_link(w, s, pick.0 as int, Direction::North), pick.1, (i + 1) as usize)
            } else {
                (carve_link(w, s, i, Direction::East), flip.1, rs)
            }
        } else if north_ok {
            let pick = range_draw(r, rs, (i + 1) as usize);
            (carve_link(w, s, pick.0 as int, Direction::North), pick.1, (i + 1) as usize)
        } else if east_ok {
            (carve_link(w, s, i, Direction::East), r, rs)
        } else {
            (s, r, (i + 1) as usize)
        }
    }
}

impl Grid {
    /// Binary Tree: visits every cell in row-major order and links it
    /// north or east — a fair coin decides when both moves stay inside
    /// the grid, the only legal move is taken when just one does, and the
    /// northeastern corner, where neither does, is left alone. The result
    /// is a spanning tree biased toward long northern and eastern
    /// corridors.
    pub fn binary_tree(&mut self, seed: Option<u64>)
        requires
            old(self).wf(),
        ensures
            final(self).width == old(self).width,
            final(self).height == old(self).height,
            final(self).wf(),
            final(self).link_symmetric(),
            flag_count(final(self).cells@) == 2 * (old(self).width * old(self).height) - 2,
            maze_connected(*final(self)),
            seed matches Some(sd) ==> final(self).cells@ == bt_cells(
                old(self).width as int,
                old(self).cells@.len() as int,
                seeded_rng(sd),
                old(self).cells@.len() as int,
            ).0,
    {
        self.reset_cells();
        let mut rng = get_rng(seed);
        let ghost rng0: Lcg64Xsh32 = rng;
        let ghost w0: usize = self.width;
        let ghost h0: usize = self.height;
        let n = self.cells.len();
        proof {
            assert(w0 as int * h0 as int >= w0 as int) by (nonlinear_arith)
                requires
                    w0 as int >= 1,
                    h0 as int >= 1,
            ;
            assert(self.cells@ =~= Seq::new(n as nat, |j: int| Cell::empty_spec()));
        }
        let mut i: usize = 0;
        while i < n
            invariant
                self.wf(),
                self.width == w0,
                self.height == h0,
                n == self.cells@.len(),
                n >= w0 >= 1,
                i <= n,
                self.link_symmetric(),
                (self.cells@, rng) == bt_cells(w0 as int, n as int, rng0, i as int),
                flag_count(self.cells@) == if (i as int) < w0 as int {
                    2 * i as int
                } else {
                    2 * i as int - 2
                },
                forall|k: int|
                    i <= k < n ==> !(#[trigger] self.cells@[k]).has_dir(Direction::North)
                        && !self.cells@[k].has_dir(Direction::East),
                forall|k: int|
                    0 <= k < i as int && k != w0 - 1 ==> (#[trigger] self.cells@[k]).has_dir(
                        Direction::North,
                    ) || self.cells@[k].has_dir(Direction::East),
                forall|k: int|
                    0 <= k < n && (#[trigger] self.cells@[k]).has_dir(Direction::West) ==> k
                        <= i as int,
                forall|k: int|
                    0 <= k < n && (#[trigger] self.cells@[k]).has_dir(Direction::South) ==> k
                        + w0 < i as int,
            decreases n - i,
        {
            let north_valid = self.valid_direction(i, Direction::North);
            let east_valid = self.valid_direction(i, Direction::East);
            let go_north = if north_valid {
                if east_valid {
                    rng_coin(&mut rng)
                } else {
                    true
                }
            } else {
                false
            };
            if go_north {
                let ghost pre = *self;
                proof {
                    assert(i >= w0);
                    assert(!self.cells@[i as int].has_dir(Direction::North));
                    assert(!self.cells@[i as int - w0 as int].has_dir(Direction::South));
                }
                self.link_cells(i, Direction::North);
                proof {
                    lemma_link_effect(pre, *self, i as int, Direction::North);
                    assert(flag_count(self.cells@) == flag_count(pre.cells@) + 2);
                }
            } else if east_valid {
                let ghost pre = *self;
                proof {
                    if i as int + 1 == w0 as int {
                        lemma_mod_self_0(w0 as int);
                    }
                }
                proof {
                    lemma_neighbor_symmetric(*self, i as int, Direction::East);
                    assert(!self.cells@[i as int].has_dir(Direction::East));
                    assert(!self.cells@[i as int + 1].has_dir(Direction::West));
                }
                self.link_cells(i, Direction::East);
                proof {
                    lemma_link_effect(pre, *self, i as int, Direction::East);
                    assert(flag_count(self.cells@) == flag_count(pre.cells@) + 2);
                }
            } else {
                proof {
                    if i as int + 1 < w0 as int {
                        lemma_small_mod((i + 1) as nat, w0 as nat);
                    }
                    assert(i as int == w0 as int - 1);
                }
            }
            i = i + 1;
        }
        proof {
            lemma_north_east_spine_connected(*self);
        }
    }

    /// Sidewinder: visits every cell in row-major order while keeping a
    /// "run" of consecutive cells of the current row, begun at
    /// `run_start`. When the coin picks north (or east is no longer
    /// legal), one cell of the run is chosen uniformly at random and
    /// linked north, and the run restarts after the current cell;
    /// otherwise the current cell is linked east and the run goes on. The
    /// top row, where north is never legal, becomes one unbroken east
    /// corridor.
    pub fn sidewinder(&mut self, seed: Option<u64>)
        requires
            old(self).wf(),
        ensures
            final(self).width == old(self).width,
            final(self).height == old(self).height,
            final(self).wf(),
            final(self).link_symmetric(),
            flag_count(final(self).cells@) == 2 * (old(self).width * old(self).height) - 2,
            maze_connected(*final(self)),
            seed matches Some(sd) ==> final(self).cells@ == sw_cells(
                old(self).width as int,
                old(self).cells@.len() as int,
                seeded_rng(sd),
                old(self).cells@.len() as int,
            ).0,
    {
        self.reset_cells();
        let mut rng = get_rng(seed);
        let ghost rng0: Lcg64Xsh32 = rng;
        let ghost w0: usize = self.width;
        let ghost h0: usize = self.height;
        let n = self.cells.len();
        proof {
            assert(w0 as int * h0 as int >= w0 as int) by (nonlinear_arith)
                requires
                    w0 as int >= 1,
                    h0 as int >= 1,
            ;
            assert(self.cells@ =~= Seq::new(n as nat, |j: int| Cell::empty_spec()));
        }
        // The first cell that can head a run with a legal north move sits
        // on the second row.
        let mut run_start: usize = self.width;
        let mut i: usize = 0;
        while i < n
            invariant
                self.wf(),
                self.width == w0,
                self.height == h0,
                n == self.cells@.len(),
                n >= w0 >= 1,
                i <= n,
                self.link_symmetric(),
                (self.cells@, rng, run_start) == sw_cells(w0 as int, n as int, rng0, i as int),
                i < w0 ==> run_start == w0,
                i >= w0 ==> w0 <= run_start <= i,
                flag_count(self.cells@) == if (i as int) < w0 as int {
                    2 * i as int
                } else {
                    2 * i as int - 2
                },
                forall|k: int|
                    0 <= k < n && (#[trigger] self.cells@[k]).has_dir(Direction::North) ==> k
                        < run_start as int,
                forall|k: int|
                    0 <= k < n && (#[trigger] self.cells@[k]).has_dir(Direction::South) ==> k
                        + w0 < run_start as int,
                forall|k: int|
                    0 <= k < n && (#[trigger] self.cells@[k]).has_dir(Direction::East) ==> k
                        < i as int,
                forall|k: int|
                    0 <= k < n && (#[trigger] self.cells@[k]).has_dir(Direction::West) ==> k
                        <= i as int,
                i >= w0 && i < n ==> run_start as int / (w0 as int) == i as int / (w0 as int),
                i >= w0 ==> forall|a: int, b: int|
                    0 <= a < run_start && 0 <= b < run_start ==> connected_cells(*self, a, b),
                forall|k: int|
                    run_start <= k < i ==> (#[trigger] self.cells@[k]).has_dir(Direction::East),
                forall|k: int|
                    0 <= k < i && k < w0 - 1 ==> (#[trigger] self.cells@[k]).has_dir(
                        Direction::East,
                    ),
                i as int == n ==> run_start == n,
            decreases n - i,
        {
            let north_valid = self.valid_direction(i, Direction::North);
            let east_valid = self.valid_direction(i, Direction::East);
            let go_north = if north_valid {
                if east_valid {
                    rng_coin(&mut rng)
                } else {
                    true
                }
            } else {
                false
            };
            if go_north {
                let chosen = rng_range(&mut rng, run_start, i + 1);
                let ghost pre = *self;
                proof {
                    assert(!self.cells@[chosen as int].has_dir(Direction::North));
                    assert(!self.cells@[chosen as int - w0 as int].has_dir(Direction::South));
                }
                self.link_cells(chosen, Direction::North);
                proof {
                    lemma_link_effect(pre, *self, chosen as int, Direction::North);
                    let w = w0 as int;
                    let t = chosen as int - w;
                    // the carved cell sits in the current row, so its
                    // northern neighbor lies before the run
                    lemma_mod_bound(run_start as int, w);
                    lemma_mod_bound(chosen as int, w);
                    lemma_fundamental_div_mod(run_start as int, w);
                    lemma_fundamental_div_mod(chosen as int, w);
                    lemma_div_is_ordered(run_start as int, chosen as int, w);
                    lemma_div_is_ordered(chosen as int, i as int, w);
                    assert(chosen as int / w == run_start as int / w);
                    assert(t < run_start as int);
                    assert forall|k2: int, d2: Direction|
                        0 <= k2 < n && (#[trigger] pre.cells@[k2].has_dir(d2)) implies
                    self.cells@[k2].has_dir(d2) by {
                        assert(self.cells@[k2].has_dir(d2) <==> (pre.cells@[k2].has_dir(d2) || (
                        k2 == chosen as int && d2 == Direction::North) || (k2 == t && d2
                            == Direction::South)));
                    }
                    assert(self.cells@[chosen as int].has_dir(Direction::North));
                    // every cell of the run reaches the carved cell along
                    // the east corridor, and through it the region above
                    assert forall|a: int, b: int|
                        0 <= a < i as int + 1 && 0 <= b < i as int + 1 implies connected_cells(
                        *self,
                        a,
                        b,
                    ) by {
                        assert forall|x: int| 0 <= x < i as int + 1 implies connected_cells(
                            *self,
                            x,
                            t,
                        ) by {
                            if x < run_start as int {
                                lemma_connected_monotone(pre, *self, x, t);
                            } else {
                                if x <= chosen as int {
                                    lemma_run_chain(*self, x, chosen as int);
                                } else {
                                    lemma_run_chain(*self, chosen as int, x);
                                    lemma_connected_sym(*self, chosen as int, x);
                                }
                                lemma_connected_step(*self, x, chosen as int, Direction::North);
                            }
                        }
                        lemma_connected_sym(*self, b, t);
                        lemma_connected_trans(*self, a, t, b);
                    }
                }
                run_start = i + 1;
            } else if east_valid {
                proof {
                    lemma_neighbor_symmetric(*self, i as int, Direction::East);
                    if i as int + 1 == w0 as int {
                        lemma_mod_self_0(w0 as int);
                    }
                    assert(!self.cells@[i as int].has_dir(Direction::East));
                    assert(!self.cells@[i as int + 1].has_dir(Direction::West));
                }
                let ghost pre = *self;
                self.link_cells(i, Direction::East);
                proof {
                    lemma_link_effect(pre, *self, i as int, Direction::East);
                    let w = w0 as int;
                    assert forall|k2: int, d2: Direction|
                        0 <= k2 < n && (#[trigger] pre.cells@[k2].has_dir(d2)) implies
                    self.cells@[k2].has_dir(d2) by {
                        assert(self.cells@[k2].has_dir(d2) <==> (pre.cells@[k2].has_dir(d2) || (
                        k2 == i as int && d2 == Direction::East) || (k2 == i as int + 1 && d2
                            == Direction::West)));
                    }
                    if i >= w0 {
                        assert forall|a: int, b: int|
                            0 <= a < run_start && 0 <= b < run_start implies connected_cells(
                            *self,
                            a,
                            b,
                        ) by {
                            lemma_connected_monotone(pre, *self, a, b);
                        }
                        if i as int + 1 < n {
                            lemma_mod_bound(i as int, w);
                            lemma_fundamental_div_mod(i as int, w);
                            if i as int % w == w - 1 {
                                assert(i as int + 1 == (i as int / w + 1) * w) by (nonlinear_arith)
                                    requires
                                        i as int == w * (i as int / w) + i as int % w,
                                        i as int % w == w - 1,
                                ;
                                lemma_mod_multiples_basic(i as int / w + 1, w);
                            }
                            assert(i as int + 1 == (i as int / w) * w + (i as int % w + 1))
                                by (nonlinear_arith)
                                requires
                                    i as int == w * (i as int / w) + i as int % w,
                            ;
                            lemma_fundamental_div_mod_converse(
                                i as int + 1,
                                w,
                                i as int / w,
                                i as int % w + 1,
                            );
                        }
                    }
                    if i as int + 1 == n {
                        assert(n == (h0 as int) * w) by (nonlinear_arith)
                            requires
                                n == w0 as int * h0 as int,
                                w == w0 as int,
                        ;
                        lemma_mod_multiples_basic(h0 as int, w);
                        assert(false);
                    }
                }
            } else {
                proof {
                    if i as int + 1 < w0 as int {
                        lemma_small_mod((i + 1) as nat, w0 as nat);
                    }
                    assert(i as int == w0 as int - 1);
                    // the finished top row is one corridor
                    assert forall|a: int, b: int|
                        0 <= a < i as int + 1 && 0 <= b < i as int + 1 implies connected_cells(
                        *self,
                        a,
                        b,
                    ) by {
                        lemma_run_chain(*self, a, i as int);
                        lemma_run_chain(*self, b, i as int);
                        lemma_connected_sym(*self, b, i as int);
                        lemma_connected_trans(*self, a, i as int, b);
                    }
                }
                run_start = i + 1;
            }
            i = i + 1;
        }
        proof {
            assert(run_start == n);
            assert forall|a: int, b: int|
                self.in_bounds(a) && self.in_bounds(b) implies connected_cells(*self, a, b) by {
            }
        }
    }

    /// Aldous-Broder: an unbiased uniform spanning tree by random walk.
    /// A random start cell is marked visited; from then on the walk draws
    /// one of the four directions at random, re-drawing while the move
    /// would leave the grid, steps there, and links the step whenever it
    /// enters a cell for the first time, until every cell has been seen.
    /// Termination is probabilistic (the cover time of the walk); the
    /// draws run on an enormous finite budget so that the verifier can
    /// check termination, and a deterministic sweep would finish the tree
    /// in the unreachable case that the budget ran out.
    pub fn aldous_broder(&mut self, seed: Option<u64>)
        requires
            old(self).wf(),
        ensures
            final(self).width == old(self).width,
            final(self).height == old(self).height,
            final(self).wf(),
            final(self).link_symmetric(),
            flag_count(final(self).cells@) == 2 * (old(self).width * old(self).height) - 2,
            maze_connected(*final(self)),
    {
        self.reset_cells();
        let mut rng = get_rng(seed);
        let ghost w0: usize = self.width;
        let ghost h0: usize = self.height;
        let n = self.cells.len();
        proof {
            assert(w0 as int * h0 as int >= 1) by (nonlinear_arith)
                requires
                    w0 as int >= 1,
                    h0 as int >= 1,
            ;
        }
        let mut visited: Vec<bool> = vec![false; n];
        proof {
            lemma_count_visited_all_false(visited@);
        }
        let ghost vis0 = visited@;
        let start = rng_range(&mut rng, 0, n);
        visited[start] = true;
        proof {
            lemma_count_visited_mark(vis0, start as int);
            assert forall|v: int, w: int|
                0 <= v < n && 0 <= w < n && visited@[v] && visited@[w] implies connected_cells(
                *self,
                v,
                w,
            ) by {
                assert(v == start as int && w == start as int);
                lemma_connected_refl(*self, v);
            }
        }
        let mut num_visited: usize = 1;
        let mut current: usize = start;
        let mut fuel: u64 = u64::MAX;
        while num_visited < n && fuel > 0
            invariant
                self.width == w0,
                self.height == h0,
                n == self.cells@.len(),
                visited@.len() == n,
                num_visited <= n,
                region_inv(*self, visited@, num_visited as int),
                region_connected(*self, visited@),
                current < n,
                visited@[current as int],
            decreases fuel,
        {
            fuel = fuel - 1;
            let k = rng_range(&mut rng, 0, 4);
            let direction = if k == 0 {
                Direction::North
            } else if k == 1 {
                Direction::South
            } else if k == 2 {
                Direction::East
            } else {
                Direction::West
            };
            if self.valid_direction(current, direction) {
                let next = self.neighbor(current, direction);
                if !visited[next] {
                    let ghost pre = *self;
                    let ghost prevision = visited@;
                    proof {
                        if pre.cells@[current as int].has_dir(direction) {
                            assert(pre.cells@[pre.nbr_of(current as int, direction)].has_dir(
                                direction.opposite_spec(),
                            ));
                        }
                        assert(!pre.cells@[current as int].has_dir(direction));
                        assert(!pre.cells@[next as int].has_dir(direction.opposite_spec()));
                    }
                    self.link_cells(current, direction);
                    visited[next] = true;
                    num_visited = num_visited + 1;
                    proof {
                        lemma_link_effect(pre, *self, current as int, direction);
                        lemma_count_visited_mark(prevision, next as int);
                        lemma_region_grow(pre, *self, prevision, current as int, direction, next as int);
                    }
                }
                current = next;
            }
        }
        if num_visited < n {
            num_visited = self.attach_unvisited(&mut visited, num_visited);
        }
        proof {
            assert(num_visited == n);
            lemma_count_full_all_visited(visited@);
            assert forall|a: int, b: int|
                self.in_bounds(a) && self.in_bounds(b) implies connected_cells(*self, a, b) by {
                assert(visited@[a] && visited@[b]);
            }
        }
    }
    /// Recursive Backtracker: depth-first carving with an explicit stack.
    /// From the current cell the walk picks a random unvisited neighbor,
    /// links to it, moves there and pushes it; when boxed in, cells are
    /// taken off the stack — fully boxed ones are discarded — until one
    /// still has an unvisited neighbor, that neighbor is linked through
    /// the first legal direction in canonical order, and the walk resumes
    /// there. Long winding corridors with few branches are the classic
    /// result.
    pub fn recursive_backtracker(&mut self, seed: Option<u64>)
        requires
            old(self).wf(),
        ensures
            final(self).width == old(self).width,
            final(self).height == old(self).height,
            final(self).wf(),
            final(self).link_symmetric(),
            flag_count(final(self).cells@) == 2 * (old(self).width * old(self).height) - 2,
            maze_connected(*final(self)),
    {
        self.reset_cells();
        let mut rng = get_rng(seed);
        let ghost w0: usize = self.width;
        let ghost h0: usize = self.height;
        let n = self.cells.len();
        proof {
            assert(w0 as int * h0 as int >= 1) by (nonlinear_arith)
                requires
                    w0 as int >= 1,
                    h0 as int >= 1,
            ;
        }
        let mut visited: Vec<bool> = vec![false; n];
        proof {
            lemma_count_visited_all_false(visited@);
        }
        let ghost vis0 = visited@;
        let mut current = rng_range(&mut rng, 0, n);
        visited[current] = true;
        proof {
            lemma_count_visited_mark(vis0, current as int);
        }
        let mut num_visited: usize = 1;
        let mut cell_stack: Vec<usize> = Vec::new();
        cell_stack.push(current);
        proof {
            assert(cell_stack@[0] == current);
            assert forall|v: int, d: Direction|
                0 <= v < n && visited@[v] && #[trigger] self.valid_dir(v, d)
                    && !visited@[self.nbr_of(v, d)] implies holds_cell(cell_stack@, v) by {
                assert(v == current as int);
                assert(holds_cell(cell_stack@, v));
            }
            assert forall|v: int, w: int|
                0 <= v < n && 0 <= w < n && visited@[v] && visited@[w] implies connected_cells(
                *self,
                v,
                w,
            ) by {
                assert(v == current as int && w == current as int);
                lemma_connected_refl(*self, v);
            }
        }
        while cell_stack.len() > 0
            invariant
                self.width == w0,
                self.height == h0,
                n == self.cells@.len(),
                visited@.len() == n,
                num_visited <= n,
                region_inv(*self, visited@, num_visited as int),
                region_connected(*self, visited@),
                current < n,
                visited@[current as int],
                forall|m: int|
                    0 <= m < cell_stack@.len() ==> #[trigger] cell_stack@[m] < n
                        && visited@[cell_stack@[m] as int],
                cell_stack@.len() > 0 ==> holds_cell(cell_stack@, current as int),
                forall|v: int, d: Direction|
                    0 <= v < n && visited@[v] && #[trigger] self.valid_dir(v, d)
                        && !visited@[self.nbr_of(v, d)] ==> holds_cell(cell_stack@, v),
            decreases n - num_visited, cell_stack@.len(),
        {
            let ghost nv0: usize = num_visited;
            let ghost sl0: nat = cell_stack@.len();
            let dirs = self.unvisited_neighbor_dirs(current, &visited);
            if dirs.len() > 0 {
                let k = rng_range(&mut rng, 0, dirs.len());
                let direction = dirs[k];
                let next = self.neighbor(current, direction);
                let ghost pre = *self;
                let ghost prevision = visited@;
                let ghost prestack = cell_stack@;
                proof {
                    if pre.cells@[current as int].has_dir(direction) {
                        assert(pre.cells@[pre.nbr_of(current as int, direction)].has_dir(
                            direction.opposite_spec(),
                        ));
                    }
                    assert(!pre.cells@[current as int].has_dir(direction));
                    assert(!pre.cells@[next as int].has_dir(direction.opposite_spec()));
                    lemma_unvisited_count_lt(prevision, next as int);
                }
                self.link_cells(current, direction);
                visited[next] = true;
                num_visited = num_visited + 1;
                proof {
                    lemma_link_effect(pre, *self, current as int, direction);
                    lemma_count_visited_mark(prevision, next as int);
                    lemma_region_grow(pre, *self, prevision, current as int, direction, next as int);
                }
                cell_stack.push(next);
                current = next;
                proof {
                    assert(cell_stack@[cell_stack@.len() - 1] == next);
                    assert forall|v: int, d: Direction|
                        0 <= v < n && visited@[v] && #[trigger] self.valid_dir(v, d)
                            && !visited@[self.nbr_of(v, d)] implies holds_cell(
                        cell_stack@,
                        v,
                    ) by {
                        if v == next as int {
                            assert(holds_cell(cell_stack@, v));
                        } else {
                            lemma_neighbor_symmetric(pre, v, d);
                            assert(pre.valid_dir(v, d));
                            assert(prevision[v]);
                            assert(!prevision[pre.nbr_of(v, d)]);
                            assert(holds_cell(prestack, v));
                            lemma_holds_cell_push(prestack, next, v);
                        }
                    }
                }
            } else {
                loop
                    invariant_except_break
                        self.width == w0,
                        self.height == h0,
                        n == self.cells@.len(),
                        visited@.len() == n,
                        num_visited == nv0,
                        nv0 <= n,
                        region_inv(*self, visited@, num_visited as int),
                        region_connected(*self, visited@),
                        current < n,
                        visited@[current as int],
                        forall|m: int|
                            0 <= m < cell_stack@.len() ==> #[trigger] cell_stack@[m] < n
                                && visited@[cell_stack@[m] as int],
                        forall|v: int, d: Direction|
                            0 <= v < n && visited@[v] && #[trigger] self.valid_dir(v, d)
                                && !visited@[self.nbr_of(v, d)] ==> holds_cell(cell_stack@, v),
                    ensures
                        self.width == w0,
                        self.height == h0,
                        n == self.cells@.len(),
                        visited@.len() == n,
                        num_visited <= n,
                        region_inv(*self, visited@, num_visited as int),
                        region_connected(*self, visited@),
                        current < n,
                        visited@[current as int],
                        forall|m: int|
                            0 <= m < cell_stack@.len() ==> #[trigger] cell_stack@[m] < n
                                && visited@[cell_stack@[m] as int],
                        cell_stack@.len() > 0 ==> holds_cell(cell_stack@, current as int),
                        forall|v: int, d: Direction|
                            0 <= v < n && visited@[v] && #[trigger] self.valid_dir(v, d)
                                && !visited@[self.nbr_of(v, d)] ==> holds_cell(cell_stack@, v),
                        num_visited == nv0 + 1 || (num_visited == nv0 && cell_stack@.len()
                            == 0),
                    decreases cell_stack@.len(),
                {
                    if cell_stack.len() == 0 {
                        break;
                    }
                    let c = cell_stack[cell_stack.len() - 1];
                    let here = self.unvisited_neighbor_dirs(c, &visited);
                    if here.len() > 0 {
                        let direction = here[0];
                        let neighbor = self.neighbor(c, direction);
                        let ghost pre = *self;
                        let ghost prevision = visited@;
                        let ghost prestack = cell_stack@;
                        proof {
                            if pre.cells@[c as int].has_dir(direction) {
                                assert(pre.cells@[pre.nbr_of(c as int, direction)].has_dir(
                                    direction.opposite_spec(),
                                ));
                            }
                            assert(!pre.cells@[c as int].has_dir(direction));
                            assert(!pre.cells@[neighbor as int].has_dir(
                                direction.opposite_spec(),
                            ));
                            lemma_unvisited_count_lt(prevision, neighbor as int);
                        }
                        self.link_cells(c, direction);
                        visited[neighbor] = true;
                        num_visited = num_visited + 1;
                        proof {
                            lemma_link_effect(pre, *self, c as int, direction);
                            lemma_count_visited_mark(prevision, neighbor as int);
                            lemma_region_grow(pre, *self, prevision, c as int, direction, neighbor as int);
                        }
                        cell_stack.push(neighbor);
                        current = neighbor;
                        proof {
                            assert(cell_stack@[cell_stack@.len() - 1] == neighbor);
                            assert forall|v: int, d: Direction|
                                0 <= v < n && visited@[v] && #[trigger] self.valid_dir(v, d)
                                    && !visited@[self.nbr_of(v, d)] implies holds_cell(
                                cell_stack@,
                                v,
                            ) by {
                                if v == neighbor as int {
                                    assert(holds_cell(cell_stack@, v));
                                } else {
                                    lemma_neighbor_symmetric(pre, v, d);
                                    assert(pre.valid_dir(v, d));
                                    assert(prevision[v]);
                                    assert(!prevision[pre.nbr_of(v, d)]);
                                    assert(holds_cell(prestack, v));
                                    lemma_holds_cell_push(prestack, neighbor, v);
                                }
                            }
                        }
                        break;
                    } else {
                        let ghost prestack = cell_stack@;
                        cell_stack.pop();
                        proof {
                            assert(cell_stack@ =~= prestack.subrange(0, prestack.len() - 1));
                            assert forall|v: int, d: Direction|
                                0 <= v < n && visited@[v] && #[trigger] self.valid_dir(v, d)
                                    && !visited@[self.nbr_of(v, d)] implies holds_cell(
                                cell_stack@,
                                v,
                            ) by {
                                assert(holds_cell(prestack, v));
                                if v == c as int {
                                    assert(visited@[self.nbr_of(v, d)]);
                                } else {
                                    lemma_holds_cell_pop(prestack, v);
                                }
                            }
                        }
                    }
                }
            }
        }
        proof {
            if num_visited < n {
                lemma_boundary_exists(*self, visited@);
                let (c, d): (int, Direction) = choose|c: int, d: Direction|
                    boundary_at(*self, visited@, c, d);
                lemma_neighbor_symmetric(*self, c, d);
                let v = self.nbr_of(c, d);
                assert(self.valid_dir(v, d.opposite_spec()));
                assert(!visited@[self.nbr_of(v, d.opposite_spec())]);
                assert(holds_cell(cell_stack@, v));
                assert(false);
            }
            lemma_count_full_all_visited(visited@);
            assert forall|a: int, b: int|
                self.in_bounds(a) && self.in_bounds(b) implies connected_cells(*self, a, b) by {
                assert(visited@[a] && visited@[b]);
            }
        }
    }

    /// Hunt-and-Kill: random-walk carving with a fallback scan over a
    /// frontier of candidate cells, kept as a min-priority worklist by
    /// cell index. Each walk step first records every unvisited neighbor
    /// of the current cell on the frontier, then picks one of those
    /// directions at random, links and moves. When the walk is boxed in,
    /// the hunt pops the smallest frontier entries until an unvisited
    /// cell turns up, links it to its first already-visited neighbor in
    /// canonical direction order, and resumes walking from it.
    pub fn hunt_and_kill(&mut self, seed: Option<u64>)
        requires
            old(self).wf(),
        ensures
            final(self).width == old(self).width,
            final(self).height == old(self).height,
            final(self).wf(),
            final(self).link_symmetric(),
            flag_count(final(self).cells@) == 2 * (old(self).width * old(self).height) - 2,
            maze_connected(*final(self)),
    {
        self.reset_cells();
        let mut rng = get_rng(seed);
        let ghost w0: usize = self.width;
        let ghost h0: usize = self.height;
        let n = self.cells.len();
        proof {
            assert(w0 as int * h0 as int >= 1) by (nonlinear_arith)
                requires
                    w0 as int >= 1,
                    h0 as int >= 1,
            ;
        }
        let mut visited: Vec<bool> = vec![false; n];
        proof {
            lemma_count_visited_all_false(visited@);
        }
        let ghost vis0 = visited@;
        let mut current = rng_range(&mut rng, 0, n);
        visited[current] = true;
        proof {
            lemma_count_visited_mark(vis0, current as int);
            assert forall|v: int, w: int|
                0 <= v < n && 0 <= w < n && visited@[v] && visited@[w] implies connected_cells(
                *self,
                v,
                w,
            ) by {
                assert(v == current as int && w == current as int);
                lemma_connected_refl(*self, v);
            }
        }
        let mut num_visited: usize = 1;
        let mut frontier: Vec<usize> = Vec::new();
        frontier.push(current);
        proof {
            assert(frontier@[0] == current);
            assert(frontier_entries_ok(*self, visited@, frontier@)) by {
                assert forall|m: int| 0 <= m < frontier@.len() implies (#[trigger] frontier@[m])
                    < n && (visited@[frontier@[m] as int] || exists|d: Direction|
                    self.valid_dir(frontier@[m] as int, d) && visited@[self.nbr_of(
                        frontier@[m] as int,
                        d,
                    )]) by {
                    assert(frontier@[m] == current);
                }
            }
            assert(frontier_covers_except(*self, visited@, frontier@, current as int)) by {
                assert forall|u: int, d: Direction|
                    0 <= u < n && !visited@[u] && #[trigger] self.valid_dir(u, d)
                        && visited@[self.nbr_of(u, d)] && self.nbr_of(u, d) != current as int
                    implies holds_cell(frontier@, u) by {
                    lemma_neighbor_symmetric(*self, u, d);
                    assert(visited@[self.nbr_of(u, d)] == vis0[self.nbr_of(u, d)]);
                    assert(false);
                }
            }
        }
        while num_visited < n
            invariant
                self.width == w0,
                self.height == h0,
                n == self.cells@.len(),
                visited@.len() == n,
                num_visited <= n,
                region_inv(*self, visited@, num_visited as int),
                current < n,
                visited@[current as int],
                frontier_entries_ok(*self, visited@, frontier@),
                frontier_covers_except(*self, visited@, frontier@, current as int),
                region_connected(*self, visited@),
            decreases n - num_visited,
        {
            let ghost fpre = frontier@;
            let dirs = self.push_frontier_neighbors(current, &visited, &mut frontier);
            proof {
                assert(frontier_covers(*self, visited@, frontier@)) by {
                    assert forall|u: int, d: Direction|
                        0 <= u < n && !visited@[u] && #[trigger] self.valid_dir(u, d)
                            && visited@[self.nbr_of(u, d)] implies holds_cell(frontier@, u) by {
                        if self.nbr_of(u, d) == current as int {
                            lemma_neighbor_symmetric(*self, u, d);
                            assert(self.valid_dir(current as int, d.opposite_spec()));
                            assert(self.nbr_of(current as int, d.opposite_spec()) == u);
                        } else {
                            assert(frontier_covers_except(*self, visited@, fpre, current as int));
                            assert(holds_cell(fpre, u));
                        }
                    }
                }
            }
            if dirs.len() > 0 {
                let k = rng_range(&mut rng, 0, dirs.len());
                let direction = dirs[k];
                let next = self.neighbor(current, direction);
                let ghost pre = *self;
                let ghost prevision = visited@;
                let ghost fnow = frontier@;
                proof {
                    if pre.cells@[current as int].has_dir(direction) {
                        assert(pre.cells@[pre.nbr_of(current as int, direction)].has_dir(
                            direction.opposite_spec(),
                        ));
                    }
                    assert(!pre.cells@[current as int].has_dir(direction));
                    assert(!pre.cells@[next as int].has_dir(direction.opposite_spec()));
                    lemma_unvisited_count_lt(prevision, next as int);
                }
                self.link_cells(current, direction);
                visited[next] = true;
                num_visited = num_visited + 1;
                proof {
                    lemma_link_effect(pre, *self, current as int, direction);
                    lemma_count_visited_mark(prevision, next as int);
                    lemma_region_grow(pre, *self, prevision, pre.nbr_of(next as int, direction.opposite_spec()), direction, next as int);
                }
                current = next;
                proof {
                    assert(frontier_covers(pre, prevision, fnow));
                    assert(frontier_covers_except(*self, visited@, frontier@, current as int)) by {
                        assert forall|u: int, d: Direction|
                            0 <= u < n && !visited@[u] && #[trigger] self.valid_dir(u, d)
                                && visited@[self.nbr_of(u, d)] && self.nbr_of(u, d)
                                != current as int implies holds_cell(frontier@, u) by {
                            lemma_neighbor_symmetric(pre, u, d);
                            assert(pre.valid_dir(u, d));
                            assert(!prevision[u]);
                            assert(prevision[pre.nbr_of(u, d)]);
                            assert(holds_cell(fnow, u));
                        }
                    }
                    assert(frontier_entries_ok(pre, prevision, fnow));
                    assert(frontier_entries_ok(*self, visited@, frontier@)) by {
                        assert forall|m: int| 0 <= m < frontier@.len() implies (
                        #[trigger] frontier@[m]) < n && (visited@[frontier@[m] as int] || exists|
                            d2: Direction,
                        |
                            self.valid_dir(frontier@[m] as int, d2) && visited@[self.nbr_of(
                                frontier@[m] as int,
                                d2,
                            )]) by {
                            assert(fnow[m] < n);
                            if prevision[fnow[m] as int] {
                            } else {
                                let d2 = choose|d2: Direction|
                                    pre.valid_dir(fnow[m] as int, d2) && prevision[pre.nbr_of(
                                        fnow[m] as int,
                                        d2,
                                    )];
                                lemma_neighbor_symmetric(pre, fnow[m] as int, d2);
                                assert(self.valid_dir(frontier@[m] as int, d2) && visited@[
                                    self.nbr_of(frontier@[m] as int, d2)]);
                            }
                        }
                    }
                }
            } else {
                let ghost nv0: usize = num_visited;
                loop
                    invariant_except_break
                        self.width == w0,
                        self.height == h0,
                        n == self.cells@.len(),
                        visited@.len() == n,
                        num_visited == nv0,
                        nv0 < n,
                        region_inv(*self, visited@, num_visited as int),
                        region_connected(*self, visited@),
                        current < n,
                        visited@[current as int],
                        frontier_entries_ok(*self, visited@, frontier@),
                        frontier_covers(*self, visited@, frontier@),
                    ensures
                        self.width == w0,
                        self.height == h0,
                        n == self.cells@.len(),
                        visited@.len() == n,
                        num_visited == nv0 + 1,
                        num_visited <= n,
                        region_inv(*self, visited@, num_visited as int),
                        region_connected(*self, visited@),
                        current < n,
                        visited@[current as int],
                        frontier_entries_ok(*self, visited@, frontier@),
                        frontier_covers_except(*self, visited@, frontier@, current as int),
                    decreases frontier@.len(),
                {
                    proof {
                        lemma_boundary_exists(*self, visited@);
                        let (bc, bd): (int, Direction) = choose|bc: int, bd: Direction|
                            boundary_at(*self, visited@, bc, bd);
                        assert(holds_cell(frontier@, bc));
                        assert(frontier@.len() > 0);
                    }
                    let ghost fpop = frontier@;
                    let ghost previsited = visited@;
                    let u = pop_min(&mut frontier);
                    let ghost midx: int = choose|m: int|
                        0 <= m < fpop.len() && fpop[m] == u && frontier@ == fpop.remove(m);
                    proof {
                        assert(frontier_entries_ok(*self, previsited, fpop));
                        assert(fpop[midx] == u);
                        assert(u < n);
                    }
                    if !visited[u] {
                        let ghost prevision = visited@;
                        proof {
                            lemma_unvisited_count_lt(prevision, u as int);
                        }
                        visited[u] = true;
                        num_visited = num_visited + 1;
                        proof {
                            lemma_count_visited_mark(prevision, u as int);
                            assert(exists|d: Direction|
                                self.valid_dir(u as int, d) && prevision[self.nbr_of(
                                    u as int,
                                    d,
                                )]);
                            let wd: Direction = choose|d: Direction|
                                self.valid_dir(u as int, d) && prevision[self.nbr_of(u as int, d)];
                            lemma_neighbor_symmetric(*self, u as int, wd);
                            assert(self.valid_dir(u as int, wd) && visited@[self.nbr_of(
                                u as int,
                                wd,
                            )]);
                        }
                        let d = self.first_visited_neighbor_dir(u, &visited);
                        let t = self.neighbor(u, d);
                        let ghost pre = *self;
                        proof {
                            assert(!pre.cells@[u as int].has_dir(d));
                            lemma_neighbor_symmetric(pre, u as int, d);
                            if pre.cells@[t as int].has_dir(d.opposite_spec()) {
                                assert(pre.cells@[u as int].has_dir(
                                    d.opposite_spec().opposite_spec(),
                                ));
                            }
                            assert(!pre.cells@[t as int].has_dir(d.opposite_spec()));
                        }
                        self.link_cells(u, d);
                        proof {
                            lemma_link_effect(pre, *self, u as int, d);
                            assert(prevision[pre.nbr_of(u as int, d)]);
                            lemma_region_grow(pre, *self, prevision, u as int, d, u as int);
                        }
                        current = u;
                        proof {
                            assert(frontier_covers(pre, previsited, fpop));
                            assert(frontier_covers_except(
                                *self,
                                visited@,
                                frontier@,
                                current as int,
                            )) by {
                                assert forall|x: int, d2: Direction|
                                    0 <= x < n && !visited@[x] && #[trigger] self.valid_dir(x, d2)
                                        && visited@[self.nbr_of(x, d2)] && self.nbr_of(x, d2)
                                        != current as int implies holds_cell(frontier@, x) by {
                                    lemma_neighbor_symmetric(pre, x, d2);
                                    assert(pre.valid_dir(x, d2));
                                    assert(!previsited[x]);
                                    assert(previsited[pre.nbr_of(x, d2)]);
                                    assert(holds_cell(fpop, x));
                                    lemma_holds_cell_remove(fpop, midx, x);
                                }
                            }
                            assert(frontier_entries_ok(*self, visited@, frontier@)) by {
                                assert forall|m: int| 0 <= m < frontier@.len() implies (
                                #[trigger] frontier@[m]) < n && (visited@[frontier@[m] as int]
                                    || exists|d2: Direction|
                                    self.valid_dir(frontier@[m] as int, d2) && visited@[
                                    self.nbr_of(frontier@[m] as int, d2)]) by {
                                    if m < midx {
                                        assert(frontier@[m] == fpop[m]);
                                    } else {
                                        assert(frontier@[m] == fpop[m + 1]);
                                    }
                                    let y: int = frontier@[m] as int;
                                    assert(frontier@[m] < n);
                                    if previsited[y] {
                                    } else {
                                        let d2 = choose|d2: Direction|
                                            pre.valid_dir(y, d2) && previsited[pre.nbr_of(y, d2)];
                                        lemma_neighbor_symmetric(pre, y, d2);
                                        assert(self.valid_dir(y, d2) && visited@[self.nbr_of(
                                            y,
                                            d2,
                                        )]);
                                    }
                                }
                            }
                        }
                        break;
                    } else {
                        proof {
                            assert(frontier_covers(*self, previsited, fpop));
                            assert(frontier_covers(*self, visited@, frontier@)) by {
                                assert forall|x: int, d2: Direction|
                                    0 <= x < n && !visited@[x] && #[trigger] self.valid_dir(x, d2)
                                        && visited@[self.nbr_of(x, d2)] implies holds_cell(
                                    frontier@,
                                    x,
                                ) by {
                                    assert(holds_cell(fpop, x));
                                    lemma_holds_cell_remove(fpop, midx, x);
                                }
                            }
                            assert(frontier_entries_ok(*self, visited@, frontier@)) by {
                                assert forall|m: int| 0 <= m < frontier@.len() implies (
                                #[trigger] frontier@[m]) < n && (visited@[frontier@[m] as int]
                                    || exists|d2: Direction|
                                    self.valid_dir(frontier@[m] as int, d2) && visited@[
                                    self.nbr_of(frontier@[m] as int, d2)]) by {
                                    if m < midx {
                                        assert(frontier@[m] == fpop[m]);
                                    } else {
                                        assert(frontier@[m] == fpop[m + 1]);
                                    }
                                }
                            }
                        }
                    }
                }
            }
        }
        proof {
            lemma_count_full_all_visited(visited@);
            assert forall|a: int, b: int|
                self.in_bounds(a) && self.in_bounds(b) implies connected_cells(*self, a, b) by {
                assert(visited@[a] && visited@[b]);
            }
        }
    }

    /// Wilson's: an unbiased uniform spanning tree by loop-erased random
    /// walks. One random cell seeds the tree. Each round picks a
    /// uniformly random unvisited cell and walks at random — recording at
    /// every cell the direction last taken from it, so that revisiting a
    /// cell overwrites its record and erases the loop just closed — until
    /// the walk reaches a visited cell. The record is then replayed from
    /// the start, linking and marking each cell, and stops on reaching a
    /// cell that was already visited. Candidate start cells are kept in a
    /// list from which entries found visited are dropped as they are
    /// drawn, which keeps every draw uniform over the unvisited cells.
    /// The walks run on an enormous finite draw budget so that the
    /// verifier can check termination, and a deterministic sweep would
    /// finish the tree in the unreachable case that the budget ran out.
    pub fn wilsons(&mut self, seed: Option<u64>)
        requires
            old(self).wf(),
        ensures
            final(self).width == old(self).width,
            final(self).height == old(self).height,
            final(self).wf(),
            final(self).link_symmetric(),
            flag_count(final(self).cells@) == 2 * (old(self).width * old(self).height) - 2,
            maze_connected(*final(self)),
    {
        self.reset_cells();
        let mut rng = get_rng(seed);
        let ghost w0: usize = self.width;
        let ghost h0: usize = self.height;
        let n = self.cells.len();
        proof {
            assert(w0 as int * h0 as int >= 1) by (nonlinear_arith)
                requires
                    w0 as int >= 1,
                    h0 as int >= 1,
            ;
        }
        let mut visited: Vec<bool> = vec![false; n];
        proof {
            lemma_count_visited_all_false(visited@);
        }
        let ghost vis0 = visited@;
        let initial = rng_range(&mut rng, 0, n);
        visited[initial] = true;
        proof {
            lemma_count_visited_mark(vis0, initial as int);
            assert forall|v: int, w: int|
                0 <= v < n && 0 <= w < n && visited@[v] && visited@[w] implies connected_cells(
                *self,
                v,
                w,
            ) by {
                assert(v == initial as int && w == initial as int);
                lemma_connected_refl(*self, v);
            }
        }
        let mut num_visited: usize = 1;
        if n == 1 {
            proof {
                assert forall|a: int, b: int|
                    self.in_bounds(a) && self.in_bounds(b) implies connected_cells(
                    *self,
                    a,
                    b,
                ) by {
                    lemma_connected_refl(*self, a);
                }
            }
            return ;
        }
        // The direction record of the walks. Every entry always holds a
        // legal direction for its cell, so a replay can follow any entry;
        // a grid of two or more cells gives every cell one.
        let mut path: Vec<Direction> = Vec::new();
        let mut c: usize = 0;
        while c < n
            invariant
                self.wf(),
                self.width == w0,
                self.height == h0,
                n == self.cells@.len(),
                n >= 2,
                c <= n,
                path@.len() == c,
                forall|j: int| 0 <= j < c ==> self.valid_dir(j, #[trigger] path@[j]),
            decreases n - c,
        {
            let d0 = if self.valid_direction(c, Direction::East) {
                Direction::East
            } else if self.valid_direction(c, Direction::West) {
                Direction::West
            } else if self.valid_direction(c, Direction::South) {
                Direction::South
            } else {
                proof {
                    if w0 >= 2 {
                        if c as int % (w0 as int) == 0 {
                            lemma_fundamental_div_mod(c as int, w0 as int);
                            lemma_mod_multiples_vanish(
                                c as int / (w0 as int),
                                1,
                                w0 as int,
                            );
                            lemma_small_mod(1nat, w0 as nat);
                            assert((c as int + 1) % (w0 as int) == 1);
                        }
                        assert(false);
                    }
                    assert(w0 == 1);
                    if c == 0 {
                        assert(self.valid_dir(0, Direction::South));
                        assert(false);
                    }
                    assert(self.valid_dir(c as int, Direction::North));
                }
                Direction::North
            };
            path.push(d0);
            c = c + 1;
        }
        // Candidate start cells; visited entries are dropped as drawn.
        let mut candidates: Vec<usize> = Vec::new();
        let mut c2: usize = 0;
        while c2 < n
            invariant
                c2 <= n,
                candidates@.len() == c2,
                forall|j: int| 0 <= j < c2 ==> #[trigger] candidates@[j] == j,
            decreases n - c2,
        {
            candidates.push(c2);
            c2 = c2 + 1;
        }
        proof {
            assert forall|u: int| 0 <= u < n && !visited@[u] implies holds_cell(
                candidates@,
                u,
            ) by {
                assert(candidates@[u] == u);
            }
        }
        let mut fuel: u64 = u64::MAX;
        while num_visited < n && fuel > 0
            invariant
                self.width == w0,
                self.height == h0,
                n == self.cells@.len(),
                n >= 2,
                visited@.len() == n,
                num_visited <= n,
                region_inv(*self, visited@, num_visited as int),
                path@.len() == n,
                forall|j: int| 0 <= j < n ==> self.valid_dir(j, #[trigger] path@[j]),
                forall|u: int| 0 <= u < n && !visited@[u] ==> holds_cell(candidates@, u),
                forall|m: int| 0 <= m < candidates@.len() ==> (#[trigger] candidates@[m]) < n,
                region_connected(*self, visited@),
            decreases fuel,
        {
            // Pick a uniformly random unvisited start.
            let mut path_init: usize = 0;
            loop
                invariant_except_break
                    num_visited < n,
                    n == self.cells@.len(),
                    visited@.len() == n,
                    num_visited == count_visited(visited@),
                    forall|u: int| 0 <= u < n && !visited@[u] ==> holds_cell(candidates@, u),
                    forall|m: int|
                        0 <= m < candidates@.len() ==> (#[trigger] candidates@[m]) < n,
                ensures
                    path_init < n,
                    !visited@[path_init as int],
                    forall|u: int| 0 <= u < n && !visited@[u] ==> holds_cell(candidates@, u),
                    forall|m: int|
                        0 <= m < candidates@.len() ==> (#[trigger] candidates@[m]) < n,
                decreases candidates@.len(),
            {
                proof {
                    lemma_count_lt_exists_unvisited(visited@);
                    let uw = choose|u: int| 0 <= u < visited@.len() && !visited@[u];
                    assert(holds_cell(candidates@, uw));
                    assert(candidates@.len() > 0);
                }
                let idx = rng_range(&mut rng, 0, candidates.len());
                let cand = candidates[idx];
                if !visited[cand] {
                    path_init = cand;
                    break ;
                }
                let ghost cpre = candidates@;
                candidates.swap_remove(idx);
                proof {
                    assert forall|u: int| 0 <= u < n && !visited@[u] implies holds_cell(
                        candidates@,
                        u,
                    ) by {
                        assert(holds_cell(cpre, u));
                        lemma_holds_cell_swap_remove(cpre, idx as int, u);
                    }
                    assert forall|m: int| 0 <= m < candidates@.len() implies (
                    #[trigger] candidates@[m]) < n by {
                        if m == idx as int {
                            assert(candidates@[m] == cpre[cpre.len() - 1]);
                        } else {
                            assert(candidates@[m] == cpre[m]);
                        }
                    }
                }
            }
            // The random walk, recording the last exit direction of every
            // cell it leaves.
            fuel = fuel - 1;
            let ghost f1: u64 = fuel;
            let mut wpos = path_init;
            let ghost mut walked: Set<int> = Set::empty();
            let ghost mut stamp: Map<int, int> = Map::empty();
            let ghost mut clock: int = 0;
            while !visited[wpos] && fuel > 0
                invariant
                    self.width == w0,
                    self.height == h0,
                    self.wf(),
                    region_inv(*self, visited@, num_visited as int),
                    num_visited <= n,
                    fuel <= f1,
                    n == self.cells@.len(),
                    visited@.len() == n,
                    path_init < n,
                    wpos < n,
                    path@.len() == n,
                    forall|j: int| 0 <= j < n ==> self.valid_dir(j, #[trigger] path@[j]),
                    forall|cc: int| walked.contains(cc) ==> 0 <= cc < n && !visited@[cc],
                    forall|cc: int|
                        #[trigger] walked.contains(cc) ==> (walked.contains(
                            self.nbr_of(cc, path@[cc]),
                        ) || visited@[self.nbr_of(cc, path@[cc])] || self.nbr_of(cc, path@[cc])
                            == wpos as int),
                    forall|a: int, b: int|
                        walked.contains(a) && walked.contains(b) && a != wpos as int && b
                            != wpos as int && #[trigger] self.nbr_of(a, path@[a]) == b
                            ==> #[trigger] self.nbr_of(b, path@[b]) != a,
                    walked.contains(path_init as int) || wpos == path_init,
                    !visited@[path_init as int],
                    forall|cc: int|
                        #[trigger] walked.contains(cc) ==> stamp.dom().contains(cc) && stamp[cc]
                            < clock,
                    forall|cc: int|
                        #[trigger] walked.contains(cc) ==> (self.nbr_of(cc, path@[cc])
                            == wpos as int || (walked.contains(self.nbr_of(cc, path@[cc]))
                            && stamp[self.nbr_of(cc, path@[cc])] > stamp[cc])),
                decreases fuel,
            {
                fuel = fuel - 1;
                let k = rng_range(&mut rng, 0, 4);
                let direction = if k == 0 {
                    Direction::North
                } else if k == 1 {
                    Direction::South
                } else if k == 2 {
                    Direction::East
                } else {
                    Direction::West
                };
                if self.valid_direction(wpos, direction) {
                    let nxt = self.neighbor(wpos, direction);
                    let ghost ppre = path@;
                    let ghost wpre = walked;
                    path[wpos] = direction;
                    proof {
                        let ghost spre = stamp;
                        let ghost cpre = clock;
                        walked = walked.insert(wpos as int);
                        stamp = stamp.insert(wpos as int, clock);
                        clock = clock + 1;
                        assert forall|cc: int| #[trigger] walked.contains(cc) implies
                        stamp.dom().contains(cc) && stamp[cc] < clock by {
                            if cc != wpos as int {
                                assert(wpre.contains(cc));
                            }
                        }
                        assert forall|cc: int| #[trigger] walked.contains(cc) implies (self.nbr_of(
                            cc,
                            path@[cc],
                        ) == nxt as int || (walked.contains(self.nbr_of(cc, path@[cc]))
                            && stamp[self.nbr_of(cc, path@[cc])] > stamp[cc])) by {
                            if cc == wpos as int {
                                assert(self.nbr_of(cc, path@[cc]) == nxt as int);
                            } else {
                                assert(wpre.contains(cc));
                                assert(path@[cc] == ppre[cc]);
                                let t = self.nbr_of(cc, ppre[cc]);
                                if t == wpos as int {
                                    assert(stamp[t] == cpre && spre[cc] < cpre);
                                }
                            }
                        }
                        assert forall|cc: int| #[trigger] walked.contains(cc) implies (
                        walked.contains(self.nbr_of(cc, path@[cc])) || visited@[self.nbr_of(
                            cc,
                            path@[cc],
                        )] || self.nbr_of(cc, path@[cc]) == nxt as int) by {
                            if cc == wpos as int {
                                assert(self.nbr_of(cc, path@[cc]) == nxt as int);
                            } else {
                                assert(wpre.contains(cc));
                                assert(path@[cc] == ppre[cc]);
                            }
                        }
                        assert forall|a: int, b: int|
                            walked.contains(a) && walked.contains(b) && a != nxt as int && b
                                != nxt as int && #[trigger] self.nbr_of(a, path@[a]) == b implies
                        #[trigger] self.nbr_of(b, path@[b]) != a by {
                            if a == wpos as int {
                                assert(self.nbr_of(a, path@[a]) == nxt as int);
                                assert(false);
                            } else if b == wpos as int {
                                assert(self.nbr_of(b, path@[b]) == nxt as int);
                            } else {
                                assert(wpre.contains(a) && wpre.contains(b));
                                assert(path@[a] == ppre[a] && path@[b] == ppre[b]);
                            }
                        }
                    }
                    wpos = nxt;
                }
            }
            // Replay the record from the start, linking and marking until
            // an already-visited cell is reached. The walk must have ended
            // on one; if the draw budget ran out instead, the sweep below
            // finishes the job.
            if visited[wpos] {
                let ghost tw = walked;
                let ghost vend = visited@;
                let ghost tstamp = stamp;
                let mut rcur = path_init;
                let ghost mut rpred: int = -1;
                proof {
                    assert(tw.contains(path_init as int));
                }
                while !visited[rcur]
                    invariant
                        self.width == w0,
                        self.height == h0,
                        n == self.cells@.len(),
                        visited@.len() == n,
                        rcur < n,
                        num_visited <= n,
                        self.wf(),
                        self.link_symmetric(),
                        num_visited == count_visited(visited@),
                        1 <= num_visited,
                        flag_count(self.cells@) == 2 * (num_visited as int - 1),
                        links_within(*self, visited@.update(rcur as int, true)),
                        path@.len() == n,
                        forall|j: int| 0 <= j < n ==> self.valid_dir(j, #[trigger] path@[j]),
                        forall|cc: int| 0 <= cc < n && vend[cc] ==> visited@[cc],
                        forall|cc: int| tw.contains(cc) ==> 0 <= cc < n && !vend[cc],
                        forall|cc: int|
                            #[trigger] tw.contains(cc) ==> (tw.contains(
                                self.nbr_of(cc, path@[cc]),
                            ) || vend[self.nbr_of(cc, path@[cc])]),
                        forall|a: int, b: int|
                            tw.contains(a) && tw.contains(b) && #[trigger] self.nbr_of(
                                a,
                                path@[a],
                            ) == b ==> #[trigger] self.nbr_of(b, path@[b]) != a,
                        !visited@[rcur as int] ==> tw.contains(rcur as int),
                        !visited@[rcur as int] ==> forall|d2: Direction|
                            self.cells@[rcur as int].has_dir(d2) ==> self.nbr_of(
                                rcur as int,
                                d2,
                            ) == rpred,
                        rpred == -1 || (tw.contains(rpred) && self.nbr_of(
                            rpred,
                            path@[rpred],
                        ) == rcur as int),
                        vend[wpos as int],
                        wpos < n,
                        forall|cc: int|
                            #[trigger] tw.contains(cc) ==> tstamp.dom().contains(cc),
                        forall|cc: int|
                            #[trigger] tw.contains(cc) ==> (self.nbr_of(cc, path@[cc])
                                == wpos as int || (tw.contains(self.nbr_of(cc, path@[cc]))
                                && tstamp[self.nbr_of(cc, path@[cc])] > tstamp[cc])),
                        visited@[rcur as int] ==> vend[rcur as int],
                        !visited@[rcur as int] ==> forall|v: int|
                            0 <= v < n && visited@[v] && !vend[v] ==> tstamp[v] < tstamp[rcur as int],
                        region_connected(*self, vend),
                        forall|v: int|
                            0 <= v < n && visited@[v] && !vend[v] ==> connected_cells(
                                *self,
                                v,
                                rcur as int,
                            ),
                    decreases n - num_visited,
                {
                    let d = path[rcur];
                    let nxt = self.neighbor(rcur, d);
                    let ghost pre = *self;
                    let ghost prevision = visited@;
                    proof {
                        lemma_neighbor_symmetric(pre, rcur as int, d);
                        // the record never points straight back at the
                        // replay's previous cell
                        if rpred != -1 {
                            assert(self.nbr_of(rpred, path@[rpred]) == rcur as int);
                            assert(nxt as int != rpred);
                        }
                        assert(!pre.cells@[rcur as int].has_dir(d));
                        if pre.cells@[nxt as int].has_dir(d.opposite_spec()) {
                            assert(pre.cells@[rcur as int].has_dir(
                                d.opposite_spec().opposite_spec(),
                            ));
                        }
                        assert(!pre.cells@[nxt as int].has_dir(d.opposite_spec()));
                        lemma_unvisited_count_lt(prevision, rcur as int);
                    }
                    visited[rcur] = true;
                    num_visited = num_visited + 1;
                    self.link_cells(rcur, d);
                    proof {
                        lemma_count_visited_mark(prevision, rcur as int);
                        lemma_link_effect(pre, *self, rcur as int, d);
                        assert forall|k2: int, d2: Direction|
                            0 <= k2 < n && #[trigger] self.cells@[k2].has_dir(d2) implies
                        visited@.update(nxt as int, true)[k2] by {
                            if k2 == rcur as int {
                            } else if k2 == nxt as int {
                            } else {
                                assert(pre.cells@[k2].has_dir(d2));
                                assert(prevision.update(rcur as int, true)[k2]);
                            }
                        }
                    }
                    let ghost oldrcur: int = rcur as int;
                    rcur = nxt;
                    proof {
                        rpred = oldrcur;
                        if !visited@[rcur as int] {
                            assert(tw.contains(rcur as int));
                            assert forall|d2: Direction|
                                self.cells@[rcur as int].has_dir(d2) implies self.nbr_of(
                                rcur as int,
                                d2,
                            ) == rpred by {
                                if !pre.cells@[rcur as int].has_dir(d2) {
                                    assert(d2 == d.opposite_spec());
                                } else {
                                    assert(prevision.update(oldrcur, true)[rcur as int]);
                                    assert(false);
                                }
                            }
                        }
                        // the record leads to the terminal or to a cell
                        // the walk left later
                        assert(tw.contains(oldrcur));
                        assert(self.nbr_of(oldrcur, path@[oldrcur]) == rcur as int);
                        assert(rcur as int == wpos as int || (tw.contains(rcur as int)
                            && tstamp[rcur as int] > tstamp[oldrcur]));
                        if visited@[rcur as int] && rcur as int != wpos as int && !vend[rcur
                            as int] {
                            assert(prevision[rcur as int]);
                            assert(tstamp[rcur as int] < tstamp[oldrcur]);
                            assert(false);
                        }
                        if !visited@[rcur as int] {
                            assert forall|v: int|
                                0 <= v < n && visited@[v] && !vend[v] implies tstamp[v] < tstamp[rcur as int] by {
                                if v != oldrcur {
                                    assert(prevision[v]);
                                }
                            }
                        }
                        // connectivity: the old region is untouched and
                        // every chain cell now reaches the new head
                        assert forall|k2: int, d2: Direction|
                            0 <= k2 < n && (#[trigger] pre.cells@[k2].has_dir(d2)) implies
                        self.cells@[k2].has_dir(d2) by {
                            assert(self.cells@[k2].has_dir(d2) <==> (pre.cells@[k2].has_dir(d2)
                                || (k2 == oldrcur && d2 == d) || (k2 == pre.nbr_of(oldrcur, d)
                                && d2 == d.opposite_spec())));
                        }
                        lemma_region_monotone(pre, *self, vend);
                        assert(self.cells@[oldrcur].has_dir(d));
                        lemma_connected_refl(*self, oldrcur);
                        lemma_connected_step(*self, oldrcur, oldrcur, d);
                        assert forall|v: int|
                            0 <= v < n && visited@[v] && !vend[v] implies connected_cells(
                            *self,
                            v,
                            rcur as int,
                        ) by {
                            if v != oldrcur {
                                assert(prevision[v]);
                                lemma_connected_monotone(pre, *self, v, oldrcur);
                                lemma_connected_trans(*self, v, oldrcur, rcur as int);
                            }
                        }
                    }
                }
                proof {
                    assert(visited@.update(rcur as int, true) =~= visited@);
                    assert(vend[rcur as int]);
                    assert forall|v: int, w: int|
                        0 <= v < n && 0 <= w < n && visited@[v] && visited@[w] implies
                    connected_cells(*self, v, w) by {
                        assert(connected_cells(*self, v, rcur as int));
                        if !vend[w] {
                            lemma_connected_sym(*self, w, rcur as int);
                        }
                        assert(connected_cells(*self, rcur as int, w));
                        lemma_connected_trans(*self, v, rcur as int, w);
                    }
                }
            }
        }
        if num_visited < n {
            num_visited = self.attach_unvisited(&mut visited, num_visited);
        }
        proof {
            assert(num_visited == n);
            lemma_count_full_all_visited(visited@);
            assert forall|a: int, b: int|
                self.in_bounds(a) && self.in_bounds(b) implies connected_cells(*self, a, b) by {
                assert(visited@[a] && visited@[b]);
            }
        }
    }

    /// Records every direction from `i` that leads to an unvisited
    /// neighbor, pushing each such neighbor onto the frontier, and
    /// returns those directions in canonical order.
    fn push_frontier_neighbors(
        &self,
        i: usize,
        visited: &Vec<bool>,
        frontier: &mut Vec<usize>,
    ) -> (dirs: Vec<Direction>)
        requires
            self.wf(),
            i < self.cells@.len(),
            visited@.len() == self.cells@.len(),
            visited@[i as int],
        ensures
            forall|m: int|
                0 <= m < dirs@.len() ==> self.valid_dir(i as int, #[trigger] dirs@[m])
                    && !visited@[self.nbr_of(i as int, dirs@[m])],
            dirs@.len() == 0 ==> forall|d: Direction|
                self.valid_dir(i as int, d) ==> visited@[self.nbr_of(i as int, d)],
            forall|v: int| holds_cell(old(frontier)@, v) ==> holds_cell(final(frontier)@, v),
            forall|d: Direction|
                self.valid_dir(i as int, d) && !visited@[self.nbr_of(i as int, d)] ==> holds_cell(
                    final(frontier)@,
                    self.nbr_of(i as int, d),
                ),
            frontier_entries_ok(*self, visited@, old(frontier)@) ==> frontier_entries_ok(
                *self,
                visited@,
                final(frontier)@,
            ),
    {
        let ghost f0 = frontier@;
        let mut dirs: Vec<Direction> = Vec::new();
        if self.valid_direction(i, Direction::North) {
            let j = self.neighbor(i, Direction::North);
            if !visited[j] {
                dirs.push(Direction::North);
                frontier.push(j);
                proof {
                    assert(frontier@[frontier@.len() - 1] == j);
                    lemma_neighbor_symmetric(*self, i as int, Direction::North);
                }
            }
        }
        let ghost f1 = frontier@;
        if self.valid_direction(i, Direction::South) {
            let j = self.neighbor(i, Direction::South);
            if !visited[j] {
                dirs.push(Direction::South);
                frontier.push(j);
                proof {
                    assert(frontier@[frontier@.len() - 1] == j);
                    lemma_neighbor_symmetric(*self, i as int, Direction::South);
                }
            }
        }
        let ghost f2 = frontier@;
        if self.valid_direction(i, Direction::East) {
            let j = self.neighbor(i, Direction::East);
            if !visited[j] {
                dirs.push(Direction::East);
                frontier.push(j);
                proof {
                    assert(frontier@[frontier@.len() - 1] == j);
                    lemma_neighbor_symmetric(*self, i as int, Direction::East);
                }
            }
        }
        let ghost f3 = frontier@;
        if self.valid_direction(i, Direction::West) {
            let j = self.neighbor(i, Direction::West);
            if !visited[j] {
                dirs.push(Direction::West);
                frontier.push(j);
                proof {
                    assert(frontier@[frontier@.len() - 1] == j);
                    lemma_neighbor_symmetric(*self, i as int, Direction::West);
                }
            }
        }
        proof {
            assert forall|v: int| holds_cell(f0, v) implies holds_cell(frontier@, v) by {
                lemma_holds_cell_extend(f0, frontier@, v);
            }
            assert forall|d: Direction|
                self.valid_dir(i as int, d) && !visited@[self.nbr_of(i as int, d)] implies
                holds_cell(frontier@, self.nbr_of(i as int, d)) by {
                let j = self.nbr_of(i as int, d);
                if d == Direction::North {
                    assert(holds_cell(f1, j));
                    lemma_holds_cell_extend(f1, frontier@, j);
                } else if d == Direction::South {
                    assert(holds_cell(f2, j));
                    lemma_holds_cell_extend(f2, frontier@, j);
                } else if d == Direction::East {
                    assert(holds_cell(f3, j));
                    lemma_holds_cell_extend(f3, frontier@, j);
                } else {
                    assert(holds_cell(frontier@, j));
                }
            }
        }
        dirs
    }

    /// The first direction, in canonical north, south, east, west order,
    /// whose neighbor is already visited. The caller must know one
    /// exists; a cell taken off the frontier always has one.
    fn first_visited_neighbor_dir(&self, i: usize, visited: &Vec<bool>) -> (d: Direction)
        requires
            self.wf(),
            i < self.cells@.len(),
            visited@.len() == self.cells@.len(),
            exists|d: Direction|
                self.valid_dir(i as int, d) && visited@[self.nbr_of(i as int, d)],
        ensures
            self.valid_dir(i as int, d),
            visited@[self.nbr_of(i as int, d)],
    {
        if self.valid_direction(i, Direction::North) {
            let j = self.neighbor(i, Direction::North);
            if visited[j] {
                return Direction::North;
            }
        }
        if self.valid_direction(i, Direction::South) {
            let j = self.neighbor(i, Direction::South);
            if visited[j] {
                return Direction::South;
            }
        }
        if self.valid_direction(i, Direction::East) {
            let j = self.neighbor(i, Direction::East);
            if visited[j] {
                return Direction::East;
            }
        }
        if self.valid_direction(i, Direction::West) {
            let j = self.neighbor(i, Direction::West);
            if visited[j] {
                return Direction::West;
            }
        }
        proof {
            assert(false);
        }
        Direction::North
    }

    /// The directions, in canonical north, south, east, west order, that
    /// lead from `i` to a neighbor inside the grid that is not yet
    /// visited. An empty answer means the cell is fully boxed in.
    fn unvisited_neighbor_dirs(&self, i: usize, visited: &Vec<bool>) -> (dirs: Vec<Direction>)
        requires
            self.wf(),
            i < self.cells@.len(),
            visited@.len() == self.cells@.len(),
        ensures
            forall|m: int|
                0 <= m < dirs@.len() ==> self.valid_dir(i as int, #[trigger] dirs@[m])
                    && !visited@[self.nbr_of(i as int, dirs@[m])],
            dirs@.len() == 0 ==> forall|d: Direction|
                self.valid_dir(i as int, d) ==> visited@[self.nbr_of(i as int, d)],
    {
        let mut dirs: Vec<Direction> = Vec::new();
        if self.valid_direction(i, Direction::North) {
            let j = self.neighbor(i, Direction::North);
            if !visited[j] {
                dirs.push(Direction::North);
            }
        }
        if self.valid_direction(i, Direction::South) {
            let j = self.neighbor(i, Direction::South);
            if !visited[j] {
                dirs.push(Direction::South);
            }
        }
        if self.valid_direction(i, Direction::East) {
            let j = self.neighbor(i, Direction::East);
            if !visited[j] {
                dirs.push(Direction::East);
            }
        }
        if self.valid_direction(i, Direction::West) {
            let j = self.neighbor(i, Direction::West);
            if !visited[j] {
                dirs.push(Direction::West);
            }
        }
        dirs
    }
}
} // verus!
