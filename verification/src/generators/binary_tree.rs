//! The binary-tree maze algorithm.
//!
//! Scanning the grid row-major, every cell opens exactly one wall toward the
//! region made of row zero and the last column: cells of the last column
//! open their up wall, cells of row zero open their right wall, interior
//! cells flip a fair coin between the two, and the top-right corner cell
//! opens nothing. Each carved wall joins a cell to a strictly earlier region,
//! so a run over a fully walled grid carves a spanning tree.

use vstd::prelude::*;

use crate::generators::{
    rng_from_entropy, rng_from_seed, rng_pick, span_gain, total_cells, GenerationState,
    MazeGenerator,
};
use crate::grid::{
    lemma_flat_index_bounds, lemma_flat_index_injective, lemma_grid_count_bounds, lemma_open_pairs_all_closed,
    lemma_open_right_adds_pair, lemma_open_up_adds_pair, lemma_wall_updated,
    lemma_wall_update_keeps_up_right, open_pairs, wall_updated, Boundary, BoundaryState, Grid,
};

verus! {

/// What a full binary-tree run over a fresh fully walled grid leaves at the
/// cell at `(x, y)`: the top-right corner cell keeps both its up and right
/// wall closed, the rest of the last column opens its up wall, the rest of
/// row zero opens its right wall, and every other cell opens exactly one of
/// the two.
pub open spec fn binary_tree_cell_rule(g: Grid, x: int, y: int) -> bool {
    if x == g.width() - 1 && y == 0 {
        g.cell(x, y).up == BoundaryState::Closed && g.cell(x, y).right == BoundaryState::Closed
    } else if x == g.width() - 1 {
        g.cell(x, y).up == BoundaryState::Open && g.cell(x, y).right == BoundaryState::Closed
    } else if y == 0 {
        g.cell(x, y).up == BoundaryState::Closed && g.cell(x, y).right == BoundaryState::Open
    } else {
        ||| (g.cell(x, y).up == BoundaryState::Open && g.cell(x, y).right
            == BoundaryState::Closed)
        ||| (g.cell(x, y).up == BoundaryState::Closed && g.cell(x, y).right
            == BoundaryState::Open)
    }
}

/// Carves a maze with the binary-tree algorithm, one cell per step.
pub struct BinaryTreeGenerator {
    pub grid: Grid,
    /// The random source; replaced wholesale by `reseed`.
    pub rng: rand::rngs::StdRng,
    /// The column of the scan position.
    pub x: usize,
    /// The row of the scan position.
    pub y: usize,
}

impl BinaryTreeGenerator {
    /// Opens the up or right wall of the cell at the scan position, on both
    /// of its sides. During a fresh run that wall was still closed, so the
    /// count of open pairs grows by exactly one and every cell the scan has
    /// not reached keeps its up and right walls closed.
    fn carve(&mut self, b: Boundary)
        requires
            old(self).wf(),
            old(self).y < old(self).grid.height(),
            b == Boundary::Up || b == Boundary::Right,
            b == Boundary::Up ==> old(self).y >= 1,
            b == Boundary::Right ==> old(self).x + 1 < old(self).grid.width(),
        ensures
            final(self).x == old(self).x,
            final(self).y == old(self).y,
            final(self).rng == old(self).rng,
            final(self).grid.size == old(self).grid.size,
            final(self).wf(),
            final(self).grid.grid@ == wall_updated(
                old(self).grid,
                old(self).x as int,
                old(self).y as int,
                b,
                BoundaryState::Open,
            ),
            old(self).fresh() ==> open_pairs(final(self).grid) == open_pairs(old(self).grid)
                + 1,
            old(self).fresh() ==> forall|i: int|
                #![trigger final(self).grid.grid@[i]]
                old(self).cells_done() + 1 <= i < final(self).grid.grid@.len() ==> {
                    &&& final(self).grid.grid@[i].up == BoundaryState::Closed
                    &&& final(self).grid.grid@[i].right == BoundaryState::Closed
                },
    {
        let ghost g0 = *self;
        let ghost k = self.cells_done();
        let ghost wi = self.grid.width();
        let ghost hi = self.grid.height();
        proof {
            lemma_flat_index_bounds(wi, hi, self.x as int, self.y as int);
            if g0.fresh() {
                assert(g0.grid.grid@[k].up == BoundaryState::Closed);
                assert(g0.grid.grid@[k].right == BoundaryState::Closed);
            }
        }
        self.grid.change_boundary_state((self.x, self.y), b, BoundaryState::Open);
        proof {
            if g0.fresh() {
                match b {
                    Boundary::Up => {
                        lemma_open_up_adds_pair(g0.grid, self.grid, g0.x as int, g0.y as int);
                    }
                    Boundary::Right => {
                        lemma_open_right_adds_pair(
                            g0.grid,
                            self.grid,
                            g0.x as int,
                            g0.y as int,
                        );
                    }
                    Boundary::Down => {}
                    Boundary::Left => {}
                }
                assert forall|i: int| k + 1 <= i < self.grid.grid@.len() implies {
                    &&& #[trigger] self.grid.grid@[i].up == BoundaryState::Closed
                    &&& self.grid.grid@[i].right == BoundaryState::Closed
                } by {
                    assert(g0.grid.grid@[i].up == BoundaryState::Closed);
                    assert(g0.grid.grid@[i].right == BoundaryState::Closed);
                    lemma_wall_update_keeps_up_right(
                        g0.grid,
                        self.grid,
                        g0.x as int,
                        g0.y as int,
                        b,
                        BoundaryState::Open,
                        i,
                    );
                }
            }
        }
    }
}

impl MazeGenerator for BinaryTreeGenerator {
    open spec fn grid_spec(&self) -> Grid {
        self.grid
    }

    open spec fn wf(&self) -> bool {
        &&& self.grid.wf()
        &&& self.grid.symmetric()
        &&& self.grid.borders_closed()
        &&& self.x < self.grid.width()
        &&& self.y <= self.grid.height()
        &&& (self.y == self.grid.height() ==> self.x == 0)
    }

    open spec fn cells_done(&self) -> int {
        self.y * self.grid.width() + self.x
    }

    open spec fn fresh(&self) -> bool {
        forall|i: int|
            #![trigger self.grid.grid@[i]]
            self.cells_done() <= i < self.grid.grid@.len() ==> {
                &&& self.grid.grid@[i].up == BoundaryState::Closed
                &&& self.grid.grid@[i].right == BoundaryState::Closed
            }
    }

    fn new(grid: Grid) -> (s: Self)
        ensures
            s.grid == grid,
            s.x == 0,
            s.y == 0,
    {
        BinaryTreeGenerator { grid, rng: rng_from_entropy(), x: 0, y: 0 }
    }

    fn step(&mut self) -> (r: GenerationState)
        ensures
            old(self).y < old(self).grid.height() ==> {
                &&& (old(self).x + 1 < old(self).grid.width() ==> final(self).x == old(self).x
                    + 1 && final(self).y == old(self).y)
                &&& (old(self).x + 1 == old(self).grid.width()
                    ==> final(self).x == 0 && final(self).y == old(self).y + 1)
            },
            old(self).y == 0 && old(self).x == old(self).grid.width() - 1 ==> final(self).grid
                == old(self).grid,
            1 <= old(self).y < old(self).grid.height() && old(self).x == old(self).grid.width()
                - 1 ==> final(self).grid.grid@ == wall_updated(
                old(self).grid,
                old(self).x as int,
                old(self).y as int,
                Boundary::Up,
                BoundaryState::Open,
            ),
            old(self).y == 0 && old(self).x + 1 < old(self).grid.width()
                ==> final(self).grid.grid@ == wall_updated(
                old(self).grid,
                old(self).x as int,
                old(self).y as int,
                Boundary::Right,
                BoundaryState::Open,
            ),
            1 <= old(self).y < old(self).grid.height()
                && old(self).x + 1 < old(self).grid.width() ==> {
                ||| final(self).grid.grid@ == wall_updated(
                    old(self).grid,
                    old(self).x as int,
                    old(self).y as int,
                    Boundary::Up,
                    BoundaryState::Open,
                )
                ||| final(self).grid.grid@ == wall_updated(
                    old(self).grid,
                    old(self).x as int,
                    old(self).y as int,
                    Boundary::Right,
                    BoundaryState::Open,
                )
            },
    {
        let w = self.grid.size.x;
        let h = self.grid.size.y;
        proof {
            lemma_grid_count_bounds(self.grid);
        }
        if self.y >= h {
            proof {
                assert(self.cells_done() == total_cells(self.grid)) by (nonlinear_arith)
                    requires
                        self.x == 0,
                        self.y == self.grid.height(),
                        self.cells_done() == self.y * self.grid.width() + self.x,
                        total_cells(self.grid) == self.grid.width() * self.grid.height(),
                ;
            }
            return GenerationState::Finished;
        }
        let ghost g0 = *self;
        let ghost k = self.cells_done();
        let ghost wi = self.grid.width();
        let ghost hi = self.grid.height();
        proof {
            lemma_flat_index_bounds(wi, hi, self.x as int, self.y as int);
        }

        if self.x == w - 1 {
            if self.y == 0 {
                // the top-right corner cell: nothing is carved
                proof {
                    assert(k == wi - 1) by (nonlinear_arith)
                        requires
                            k == g0.y * wi + g0.x,
                            g0.y == 0,
                            g0.x == wi - 1,
                    ;
                }
            } else {
                self.carve(Boundary::Up);
                proof {
                    assert(k >= wi) by (nonlinear_arith)
                        requires
                            k == g0.y * wi + g0.x,
                            g0.y >= 1,
                            g0.x >= 0,
                            wi >= 1,
                    ;
                }
            }
        } else if self.y == 0 {
            self.carve(Boundary::Right);
            proof {
                assert(k < wi - 1) by (nonlinear_arith)
                    requires
                        k == g0.y * wi + g0.x,
                        g0.y == 0,
                        g0.x < wi - 1,
                ;
            }
        } else {
            if rng_pick(&mut self.rng, 0, 1) == 0 {
                self.carve(Boundary::Up);
            } else {
                self.carve(Boundary::Right);
            }
            proof {
                assert(k >= wi) by (nonlinear_arith)
                    requires
                        k == g0.y * wi + g0.x,
                        g0.y >= 1,
                        g0.x >= 0,
                        wi >= 1,
                ;
            }
        }

        self.x = self.x + 1;
        if self.x >= w {
            self.x = 0;
            self.y = self.y + 1;
        }
        proof {
            assert((g0.y + 1) * wi == g0.y * wi + wi) by (nonlinear_arith);
            assert(self.cells_done() == k + 1);
        }
        GenerationState::Unfinished
    }

    fn generate(&mut self)
        ensures
            old(self).fresh() && old(self).cells_done() == 0 ==> forall|x: int, y: int|
                #![trigger binary_tree_cell_rule(final(self).grid, x, y)]
                final(self).grid.in_bounds(x, y) ==> binary_tree_cell_rule(
                    final(self).grid,
                    x,
                    y,
                ),
    {
        let ghost g0 = *self;
        proof {
            lemma_grid_count_bounds(self.grid);
            if (self.y as int) < self.grid.height() {
                lemma_flat_index_bounds(
                    self.grid.width(),
                    self.grid.height(),
                    self.x as int,
                    self.y as int,
                );
            } else {
                assert(self.cells_done() == total_cells(self.grid)) by (nonlinear_arith)
                    requires
                        self.x == 0,
                        self.y == self.grid.height(),
                        self.cells_done() == self.y * self.grid.width() + self.x,
                        total_cells(self.grid) == self.grid.width() * self.grid.height(),
                ;
            }
        }
        let mut done = false;
        while !done
            invariant
                self.wf(),
                g0.wf(),
                self.grid.size == g0.grid.size,
                0 <= g0.cells_done() <= self.cells_done() <= total_cells(self.grid),
                done ==> self.cells_done() == total_cells(self.grid),
                g0.cells_done() == total_cells(g0.grid) ==> *self == g0,
                g0.fresh() ==> self.fresh() && open_pairs(self.grid) == open_pairs(g0.grid)
                    + span_gain(g0.grid, g0.cells_done(), self.cells_done()),
                g0.fresh() && g0.cells_done() == 0 ==> forall|x: int, y: int|
                    #![trigger binary_tree_cell_rule(self.grid, x, y)]
                    self.grid.in_bounds(x, y) && y * self.grid.width() + x < self.cells_done()
                        ==> binary_tree_cell_rule(self.grid, x, y),
            decreases total_cells(self.grid) - self.cells_done() + (if done {
                0int
            } else {
                1int
            }),
        {
            let ghost s0 = *self;
            match self.step() {
                GenerationState::Unfinished => {}
                GenerationState::Finished => {
                    done = true;
                }
            }
            proof {
                if g0.fresh() && g0.cells_done() == 0 && s0.cells_done() < total_cells(
                    s0.grid,
                ) {
                    let wi = s0.grid.width();
                    let hi = s0.grid.height();
                    let px = s0.x as int;
                    let py = s0.y as int;
                    assert(py < hi) by (nonlinear_arith)
                        requires
                            s0.cells_done() == py * wi + px,
                            total_cells(s0.grid) == wi * hi,
                            s0.cells_done() < total_cells(s0.grid),
                            0 <= px < wi,
                            0 <= py,
                    ;
                    lemma_flat_index_bounds(wi, hi, px, py);
                    if py >= 1 && self.grid.grid@ == wall_updated(
                        s0.grid,
                        px,
                        py,
                        Boundary::Up,
                        BoundaryState::Open,
                    ) {
                        lemma_wall_updated(s0.grid, self.grid, px, py, Boundary::Up,
                            BoundaryState::Open);
                    }
                    if px + 1 < wi && self.grid.grid@ == wall_updated(
                        s0.grid,
                        px,
                        py,
                        Boundary::Right,
                        BoundaryState::Open,
                    ) {
                        lemma_wall_updated(s0.grid, self.grid, px, py, Boundary::Right,
                            BoundaryState::Open);
                    }
                    assert(s0.grid.grid@[py * wi + px].up == s0.grid.cell(px, py).up);
                    assert forall|x: int, y: int|
                        #![trigger binary_tree_cell_rule(self.grid, x, y)]
                        self.grid.in_bounds(x, y) && y * self.grid.width() + x
                            < self.cells_done() implies binary_tree_cell_rule(
                        self.grid,
                        x,
                        y,
                    ) by {
                        lemma_flat_index_bounds(wi, hi, x, y);
                        lemma_flat_index_injective(wi, x, y, px, py);
                        if x == px && y == py {
                            assert(s0.grid.grid@[py * wi + px].up == BoundaryState::Closed
                                || py == 0);
                            assert(s0.grid.grid@[py * wi + px].right == BoundaryState::Closed
                                || px == wi - 1);
                        } else {
                            assert(binary_tree_cell_rule(s0.grid, x, y));
                            if py >= 1 && self.grid.grid@ == wall_updated(
                                s0.grid,
                                px,
                                py,
                                Boundary::Up,
                                BoundaryState::Open,
                            ) {
                                lemma_wall_update_keeps_up_right(s0.grid, self.grid, px, py,
                                    Boundary::Up, BoundaryState::Open, y * wi + x);
                            }
                            if px + 1 < wi && self.grid.grid@ == wall_updated(
                                s0.grid,
                                px,
                                py,
                                Boundary::Right,
                                BoundaryState::Open,
                            ) {
                                lemma_wall_update_keeps_up_right(s0.grid, self.grid, px, py,
                                    Boundary::Right, BoundaryState::Open, y * wi + x);
                            }
                        }
                    }
                }
            }
        }
        proof {
            if g0.fresh() && g0.cells_done() == 0 && g0.grid.all_closed() {
                lemma_open_pairs_all_closed(g0.grid);
                lemma_grid_count_bounds(g0.grid);
            }
            if g0.fresh() && g0.cells_done() == 0 {
                assert forall|x: int, y: int|
                    #![trigger binary_tree_cell_rule(self.grid, x, y)]
                    self.grid.in_bounds(x, y) implies binary_tree_cell_rule(
                    self.grid,
                    x,
                    y,
                ) by {
                    lemma_flat_index_bounds(self.grid.width(), self.grid.height(), x, y);
                }
            }
        }
    }

    fn reset(&mut self) {
        self.x = 0;
        self.y = 0;
    }

    fn reseed(&mut self, seed: u64) {
        self.rng = rng_from_seed(seed);
    }
}

} // verus!
