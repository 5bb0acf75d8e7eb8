//! The sidewinder maze algorithm.
//!
//! Scanning the grid row-major, the algorithm grows a run of horizontally
//! joined cells along each row. Row zero is one long corridor: every cell
//! but the last opens its right wall. In the other rows each cell either
//! extends the run by opening its right wall, or closes the run by opening
//! the up wall of one randomly chosen cell of the run; the last column
//! always closes the run. Every visited cell but the top-right corner adds
//! exactly one open wall, so a run over a fully walled grid carves a
//! spanning tree, biased toward long corridors.

use vstd::prelude::*;

use crate::generators::{
    rng_from_entropy, rng_from_seed, rng_pick, span_gain, total_cells, GenerationState,
    MazeGenerator,
};
use crate::grid::{
    lemma_flat_index_bounds, lemma_grid_count_bounds, lemma_open_pairs_all_closed,
    lemma_open_right_adds_pair, lemma_open_up_adds_pair, lemma_wall_update_keeps_up_right,
    open_pairs, wall_updated, Boundary, BoundaryState, Grid,
};

verus! {

/// Carves a maze with the sidewinder algorithm, one cell per step.
pub struct SidewinderGenerator {
    pub grid: Grid,
    /// The random source; replaced wholesale by `reseed`.
    pub rng: rand::rngs::StdRng,
    /// The column of the scan position.
    pub x: usize,
    /// The row of the scan position.
    pub y: usize,
    /// The first column of the current run of horizontally joined cells.
    pub min_x: usize,
    /// The last column of the current run; kept equal to the scan column.
    pub max_x: usize,
}

impl SidewinderGenerator {
    /// Closes the current run: opens the up wall of a randomly chosen cell
    /// in the run `[min_x, max_x]` of the current row, on both of its sides,
    /// and starts the next run after the scan position. During a fresh run
    /// every up wall of the run is still closed, so the count of open pairs
    /// grows by exactly one.
    fn open_random_top(&mut self)
        requires
            old(self).wf(),
            1 <= old(self).y,
            old(self).y < old(self).grid.height(),
        ensures
            final(self).x == old(self).x,
            final(self).y == old(self).y,
            final(self).max_x == old(self).max_x,
            final(self).min_x == old(self).x + 1,
            final(self).grid.size == old(self).grid.size,
            final(self).grid.wf(),
            final(self).grid.symmetric(),
            final(self).grid.borders_closed(),
            exists|r: int|
                #![auto]
                old(self).min_x <= r <= old(self).x && final(self).grid.grid@ == wall_updated(
                    old(self).grid,
                    r,
                    old(self).y as int,
                    Boundary::Up,
                    BoundaryState::Open,
                ),
            old(self).fresh() ==> open_pairs(final(self).grid) == open_pairs(old(self).grid)
                + 1,
            old(self).fresh() ==> forall|i: int|
                #![trigger final(self).grid.grid@[i]]
                old(self).cells_done() + 1 <= i < final(self).grid.grid@.len() ==> {
                    &&& final(self).grid.grid@[i].up == BoundaryState::Closed
                    &&& final(self).grid.grid@[i].right == BoundaryState::Closed
                },
    {
        let ghost g0 = *self;
        let ghost k = self.cells_done();
        let ghost wi = self.grid.width();
        let ghost hi = self.grid.height();
        let xr = rng_pick(&mut self.rng, self.min_x, self.max_x);
        proof {
            lemma_flat_index_bounds(wi, hi, xr as int, self.y as int);
            assert(g0.y * wi + xr <= k);
            if g0.fresh() {
                if xr == g0.x {
                    assert(g0.grid.grid@[k].up == BoundaryState::Closed);
                } else {
                    assert(g0.grid.grid@[g0.y * wi + xr].up == BoundaryState::Closed);
                }
            }
        }
        self.grid.change_boundary_state((xr, self.y), Boundary::Up, BoundaryState::Open);
        self.min_x = self.x + 1;
        proof {
            if g0.fresh() {
                lemma_open_up_adds_pair(g0.grid, self.grid, xr as int, g0.y as int);
                assert forall|i: int| k + 1 <= i < self.grid.grid@.len() implies {
                    &&& #[trigger] self.grid.grid@[i].up == BoundaryState::Closed
                    &&& self.grid.grid@[i].right == BoundaryState::Closed
                } by {
                    assert(g0.grid.grid@[i].up == BoundaryState::Closed);
                    assert(g0.grid.grid@[i].right == BoundaryState::Closed);
                    lemma_wall_update_keeps_up_right(
                        g0.grid,
                        self.grid,
                        xr as int,
                        g0.y as int,
                        Boundary::Up,
                        BoundaryState::Open,
                        i,
                    );
                }
            }
        }
    }

    /// Extends the run: opens the right wall of the cell at the scan
    /// position, on both of its sides. No up wall anywhere changes. During a
    /// fresh run that wall was still closed, so the count of open pairs
    /// grows by exactly one.
    fn open_right(&mut self)
        requires
            old(self).wf(),
            old(self).y < old(self).grid.height(),
            old(self).x + 1 < old(self).grid.width(),
        ensures
            final(self).x == old(self).x,
            final(self).y == old(self).y,
            final(self).max_x == old(self).max_x,
            final(self).min_x == old(self).min_x,
            final(self).rng == old(self).rng,
            final(self).grid.size == old(self).grid.size,
            final(self).grid.wf(),
            final(self).grid.symmetric(),
            final(self).grid.borders_closed(),
            final(self).grid.grid@.len() == old(self).grid.grid@.len(),
            final(self).grid.grid@ == wall_updated(
                old(self).grid,
                old(self).x as int,
                old(self).y as int,
                Boundary::Right,
                BoundaryState::Open,
            ),
            forall|i: int|
                #![trigger final(self).grid.grid@[i]]
                0 <= i < final(self).grid.grid@.len() ==> final(self).grid.grid@[i].up == old(
                    self,
                ).grid.grid@[i].up,
            old(self).fresh() ==> open_pairs(final(self).grid) == open_pairs(old(self).grid)
                + 1,
            old(self).fresh() ==> forall|i: int|
                #![trigger final(self).grid.grid@[i]]
                old(self).cells_done() + 1 <= i < final(self).grid.grid@.len() ==> {
                    &&& final(self).grid.grid@[i].up == BoundaryState::Closed
                    &&& final(self).grid.grid@[i].right == BoundaryState::Closed
                },
    {
        let ghost g0 = *self;
        let ghost k = self.cells_done();
        let ghost wi = self.grid.width();
        let ghost hi = self.grid.height();
        proof {
            lemma_flat_index_bounds(wi, hi, self.x as int, self.y as int);
            if g0.fresh() {
                assert(g0.grid.grid@[k].right == BoundaryState::Closed);
            }
        }
        self.grid.change_boundary_state((self.x, self.y), Boundary::Right, BoundaryState::Open);
        proof {
            assert forall|i: int| 0 <= i < self.grid.grid@.len() implies self.grid.grid@[i].up
                == g0.grid.grid@[i].up by {
                if i != k {
                    lemma_wall_update_keeps_up_right(
                        g0.grid,
                        self.grid,
                        g0.x as int,
                        g0.y as int,
                        Boundary::Right,
                        BoundaryState::Open,
                        i,
                    );
                }
            }
            if g0.fresh() {
                lemma_open_right_adds_pair(g0.grid, self.grid, g0.x as int, g0.y as int);
                assert forall|i: int| k + 1 <= i < self.grid.grid@.len() implies {
                    &&& #[trigger] self.grid.grid@[i].up == BoundaryState::Closed
                    &&& self.grid.grid@[i].right == BoundaryState::Closed
                } by {
                    assert(g0.grid.grid@[i].up == BoundaryState::Closed);
                    assert(g0.grid.grid@[i].right == BoundaryState::Closed);
                    lemma_wall_update_keeps_up_right(
                        g0.grid,
                        self.grid,
                        g0.x as int,
                        g0.y as int,
                        Boundary::Right,
                        BoundaryState::Open,
                        i,
                    );
                }
            }
        }
    }
}

impl MazeGenerator for SidewinderGenerator {
    open spec fn grid_spec(&self) -> Grid {
        self.grid
    }

    open spec fn wf(&self) -> bool {
        &&& self.grid.wf()
        &&& self.grid.symmetric()
        &&& self.grid.borders_closed()
        &&& self.x < self.grid.width()
        &&& self.y <= self.grid.height()
        &&& (self.y == self.grid.height() ==> self.x == 0)
        &&& (self.y < self.grid.height() ==> self.min_x <= self.x && self.max_x == self.x)
    }

    open spec fn cells_done(&self) -> int {
        self.y * self.grid.width() + self.x
    }

    open spec fn fresh(&self) -> bool {
        &&& forall|i: int|
            #![trigger self.grid.grid@[i]]
            self.cells_done() <= i < self.grid.grid@.len() ==> {
                &&& self.grid.grid@[i].up == BoundaryState::Closed
                &&& self.grid.grid@[i].right == BoundaryState::Closed
            }
        &&& (1 <= self.y < self.grid.height() ==> forall|i: int|
            #![trigger self.grid.grid@[i]]
            self.y * self.grid.width() + self.min_x <= i < self.cells_done()
                ==> self.grid.grid@[i].up == BoundaryState::Closed)
    }

    fn new(grid: Grid) -> (s: Self)
        ensures
            s.grid == grid,
            s.x == 0,
            s.y == 0,
            s.min_x == 0,
            s.max_x == 0,
    {
        SidewinderGenerator {
            grid,
            rng: rng_from_entropy(),
            x: 0,
            y: 0,
            min_x: 0,
            max_x: 0,
        }
    }

    fn step(&mut self) -> (r: GenerationState)
        ensures
            old(self).y < old(self).grid.height() ==> {
                &&& (old(self).x + 1 < old(self).grid.width() ==> final(self).x == old(self).x
                    + 1 && final(self).y == old(self).y && final(self).max_x == old(self).x + 1)
                &&& (old(self).x + 1 == old(self).grid.width()
                    ==> final(self).x == 0 && final(self).y == old(self).y + 1
                        && final(self).min_x == 0 && final(self).max_x == 0)
            },
            old(self).y == 0 && old(self).x == old(self).grid.width() - 1 ==> final(self).grid
                == old(self).grid,
            old(self).y == 0 && old(self).x + 1 < old(self).grid.width()
                ==> final(self).grid.grid@ == wall_updated(
                old(self).grid,
                old(self).x as int,
                old(self).y as int,
                Boundary::Right,
                BoundaryState::Open,
            ) && final(self).min_x == old(self).min_x,
            1 <= old(self).y < old(self).grid.height() && old(self).x == old(self).grid.width()
                - 1 ==> (exists|r: int|
                #![auto]
                old(self).min_x <= r <= old(self).x && final(self).grid.grid@ == wall_updated(
                    old(self).grid,
                    r,
                    old(self).y as int,
                    Boundary::Up,
                    BoundaryState::Open,
                )),
            1 <= old(self).y < old(self).grid.height()
                && old(self).x + 1 < old(self).grid.width() ==> {
                ||| ((exists|r: int|
                    #![auto]
                    old(self).min_x <= r <= old(self).x && final(self).grid.grid@
                        == wall_updated(
                        old(self).grid,
                        r,
                        old(self).y as int,
                        Boundary::Up,
                        BoundaryState::Open,
                    )) && final(self).min_x == old(self).x + 1)
                ||| (final(self).grid.grid@ == wall_updated(
                    old(self).grid,
                    old(self).x as int,
                    old(self).y as int,
                    Boundary::Right,
                    BoundaryState::Open,
                ) && final(self).min_x == old(self).min_x)
            },
    {
        let w = self.grid.size.x;
        let h = self.grid.size.y;
        proof {
            lemma_grid_count_bounds(self.grid);
        }
        if self.y >= h {
            proof {
                assert(self.cells_done() == total_cells(self.grid)) by (nonlinear_arith)
                    requires
                        self.x == 0,
                        self.y == self.grid.height(),
                        self.cells_done() == self.y * self.grid.width() + self.x,
                        total_cells(self.grid) == self.grid.width() * self.grid.height(),
                ;
            }
            return GenerationState::Finished;
        }
        let ghost g0 = *self;
        let ghost k = self.cells_done();
        let ghost wi = self.grid.width();
        let ghost hi = self.grid.height();
        proof {
            lemma_flat_index_bounds(wi, hi, self.x as int, self.y as int);
        }

        if self.x == w - 1 {
            if self.y == 0 {
                // the top-right corner cell: nothing is carved
                proof {
                    assert(k == wi - 1) by (nonlinear_arith)
                        requires
                            k == g0.y * wi + g0.x,
                            g0.y == 0,
                            g0.x == wi - 1,
                    ;
                }
            } else {
                self.open_random_top();
                proof {
                    assert(k >= wi) by (nonlinear_arith)
                        requires
                            k == g0.y * wi + g0.x,
                            g0.y >= 1,
                            g0.x >= 0,
                            wi >= 1,
                    ;
                }
            }
        } else if self.y == 0 {
            self.open_right();
            proof {
                assert(k < wi - 1) by (nonlinear_arith)
                    requires
                        k == g0.y * wi + g0.x,
                        g0.y == 0,
                        g0.x < wi - 1,
                ;
            }
        } else {
            if rng_pick(&mut self.rng, 0, 1) == 0 {
                self.open_random_top();
            } else {
                self.open_right();
            }
            proof {
                assert(k >= wi) by (nonlinear_arith)
                    requires
                        k == g0.y * wi + g0.x,
                        g0.y >= 1,
                        g0.x >= 0,
                        wi >= 1,
                ;
            }
        }

        self.x = self.x + 1;
        if self.x >= w {
            self.x = 0;
            self.min_x = 0;
            self.y = self.y + 1;
        }
        self.max_x = self.x;
        proof {
            assert((g0.y + 1) * wi == g0.y * wi + wi) by (nonlinear_arith);
            assert(self.cells_done() == k + 1);
            if g0.fresh() {
                if 1 <= self.y < hi {
                    assert forall|i: int|
                        self.y * wi + self.min_x <= i < self.cells_done()
                        implies #[trigger] self.grid.grid@[i].up == BoundaryState::Closed by {
                        if g0.fresh() && i < k {
                            assert(g0.grid.grid@[i].up == BoundaryState::Closed);
                        }
                        if i == k {
                            assert(g0.grid.grid@[k].up == BoundaryState::Closed);
                        }
                    }
                }
            }
        }
        GenerationState::Unfinished
    }

    fn generate(&mut self) {
        let ghost g0 = *self;
        proof {
            lemma_grid_count_bounds(self.grid);
            if (self.y as int) < self.grid.height() {
                lemma_flat_index_bounds(
                    self.grid.width(),
                    self.grid.height(),
                    self.x as int,
                    self.y as int,
                );
            } else {
                assert(self.cells_done() == total_cells(self.grid)) by (nonlinear_arith)
                    requires
                        self.x == 0,
                        self.y == self.grid.height(),
                        self.cells_done() == self.y * self.grid.width() + self.x,
                        total_cells(self.grid) == self.grid.width() * self.grid.height(),
                ;
            }
        }
        let mut done = false;
        while !done
            invariant
                self.wf(),
                g0.wf(),
                self.grid.size == g0.grid.size,
                0 <= g0.cells_done() <= self.cells_done() <= total_cells(self.grid),
                done ==> self.cells_done() == total_cells(self.grid),
                g0.cells_done() == total_cells(g0.grid) ==> *self == g0,
                g0.fresh() ==> self.fresh() && open_pairs(self.grid) == open_pairs(g0.grid)
                    + span_gain(g0.grid, g0.cells_done(), self.cells_done()),
            decreases total_cells(self.grid) - self.cells_done() + (if done {
                0int
            } else {
                1int
            }),
        {
            match self.step() {
                GenerationState::Unfinished => {}
                GenerationState::Finished => {
                    done = true;
                }
            }
        }
        proof {
            if g0.fresh() && g0.cells_done() == 0 && g0.grid.all_closed() {
                lemma_open_pairs_all_closed(g0.grid);
                lemma_grid_count_bounds(g0.grid);
            }
        }
    }

    fn reset(&mut self)
        ensures
            final(self).x == 0,
            final(self).y == 0,
            final(self).min_x == 0,
            final(self).max_x == 0,
            final(self).grid == old(self).grid,
    {
        self.x = 0;
        self.y = 0;
        self.min_x = 0;
        self.max_x = 0;
    }

    fn reseed(&mut self, seed: u64) {
        self.rng = rng_from_seed(seed);
    }
}

} // verus!
