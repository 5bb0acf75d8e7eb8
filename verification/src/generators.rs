//! Maze generation: the shared stepping interface and its two algorithms.
//!
//! A generator owns a [`Grid`] and walks it in row-major order, carving one
//! wall per visited cell (except the top-right corner cell, which carves
//! none). Run on a fully walled grid, either algorithm opens exactly
//! `width * height - 1` shared walls: the edge count of a spanning tree.

pub mod binary_tree;
pub mod sidewinder;

use vstd::prelude::*;

use crate::grid::Grid;
use crate::grid::open_pairs;

verus! {

/// Whether a generator still has cells left to process.
#[derive(Clone, Copy, PartialEq, Eq, Structural, Debug)]
pub enum GenerationState {
    Unfinished,
    Finished,
}

#[verifier::external_type_specification]
#[verifier::external_body]
pub struct ExStdRng(rand::rngs::StdRng);

/// Relies on rand's `SeedableRng::from_entropy` for `StdRng`: returns a
/// freshly seeded generator; nothing is promised of the values it will
/// yield. It aborts if the operating system's entropy source fails, an
/// environmental condition no input can rule out.
#[verifier::external_body]
pub(crate) fn rng_from_entropy() -> rand::rngs::StdRng {
    rand::SeedableRng::from_entropy()
}

/// Relies on rand's `SeedableRng::seed_from_u64` for `StdRng`: returns a
/// generator deterministically derived from the seed; nothing is promised of
/// the values it will yield.
#[verifier::external_body]
pub(crate) fn rng_from_seed(seed: u64) -> rand::rngs::StdRng {
    rand::SeedableRng::seed_from_u64(seed)
}

/// Relies on rand's `Rng::gen_range` over the inclusive range `lo..=hi`: it
/// panics only on an empty range (ruled out here) and returns a value of the
/// range; which one depends on the state of the generator.
#[verifier::external_body]
pub(crate) fn rng_pick(rng: &mut rand::rngs::StdRng, lo: usize, hi: usize) -> (r: usize)
    requires
        lo <= hi,
    ensures
        lo <= r <= hi,
{
    rand::Rng::gen_range(rng, lo..=hi)
}

/// How many cells the grid has.
pub open spec fn total_cells(g: Grid) -> int {
    g.width() * g.height()
}

/// The row-major index of the top-right cell: the one cell at which a
/// generator carves nothing.
pub open spec fn corner_index(g: Grid) -> int {
    g.width() - 1
}

/// How many shared walls a generator carves open while its scan moves from
/// cell `k0` to cell `k1` of a fresh (fully walled at the start of the run)
/// grid: one per cell, except at the top-right corner cell.
pub open spec fn span_gain(g: Grid, k0: int, k1: int) -> int {
    (k1 - k0) - if k0 <= corner_index(g) && corner_index(g) < k1 {
        1int
    } else {
        0int
    }
}

/// The stepping interface shared by the maze-generation algorithms.
pub trait MazeGenerator: Sized {
    /// The grid the generator owns.
    spec fn grid_spec(&self) -> Grid;

    /// The generator's invariant: a well-formed, symmetric grid with a
    /// closed rim, and a scan position inside it.
    spec fn wf(&self) -> bool;

    /// How many cells of the row-major scan have been processed.
    spec fn cells_done(&self) -> int;

    /// True while the generator is carving a fresh maze: every wall that the
    /// rest of the run may still carve is closed, as right after
    /// [`Grid::new`] or [`Grid::close_all`].
    spec fn fresh(&self) -> bool;

    /// Takes ownership of the grid and places the scan at the first cell.
    fn new(grid: Grid) -> (s: Self)
        requires
            grid.wf(),
            grid.symmetric(),
            grid.borders_closed(),
        ensures
            s.wf(),
            s.grid_spec() == grid,
            s.cells_done() == 0,
            grid.all_closed() ==> s.fresh(),
    ;

    /// Processes one cell of the row-major scan: carves that cell's wall (if
    /// it gets one) and advances. Once the scan is past the last cell, the
    /// call changes nothing and keeps returning `Finished`.
    fn step(&mut self) -> (r: GenerationState)
        requires
            old(self).wf(),
        ensures
            final(self).wf(),
            final(self).grid_spec().size == old(self).grid_spec().size,
            0 <= old(self).cells_done() <= total_cells(old(self).grid_spec()),
            (r == GenerationState::Finished) <==> old(self).cells_done()
                == total_cells(old(self).grid_spec()),
            old(self).cells_done() == total_cells(old(self).grid_spec())
                ==> *final(self) == *old(self),
            old(self).cells_done() < total_cells(old(self).grid_spec())
                ==> final(self).cells_done() == old(self).cells_done() + 1,
            old(self).fresh() ==> final(self).fresh(),
            old(self).fresh() && old(self).cells_done() < total_cells(old(self).grid_spec())
                ==> open_pairs(final(self).grid_spec()) == open_pairs(old(self).grid_spec()) + (
            if old(self).cells_done() == corner_index(old(self).grid_spec()) {
                0int
            } else {
                1int
            }),
    ;

    /// Runs `step` until it reports `Finished`. On a fresh fully walled grid
    /// this opens exactly `width * height - 1` shared walls: the edge count
    /// of a spanning tree. Once finished, calling it again changes nothing.
    fn generate(&mut self)
        requires
            old(self).wf(),
        ensures
            final(self).wf(),
            final(self).grid_spec().size == old(self).grid_spec().size,
            final(self).cells_done() == total_cells(final(self).grid_spec()),
            old(self).cells_done() == total_cells(old(self).grid_spec())
                ==> *final(self) == *old(self),
            old(self).fresh() ==> final(self).fresh() && open_pairs(final(self).grid_spec())
                == open_pairs(old(self).grid_spec()) + span_gain(
                    old(self).grid_spec(),
                    old(self).cells_done(),
                    total_cells(old(self).grid_spec()),
                ),
            old(self).fresh() && old(self).cells_done() == 0
                && old(self).grid_spec().all_closed()
                ==> open_pairs(final(self).grid_spec())
                    == total_cells(old(self).grid_spec()) - 1,
    ;

    /// Puts the scan back at the first cell without touching any wall:
    /// a caller that wants a clean regeneration closes the walls first, with
    /// [`Grid::close_all`].
    fn reset(&mut self)
        requires
            old(self).wf(),
        ensures
            final(self).wf(),
            final(self).grid_spec() == old(self).grid_spec(),
            final(self).cells_done() == 0,
            old(self).grid_spec().all_closed() ==> final(self).fresh(),
    ;

    /// Replaces the random source with one deterministically derived from
    /// `seed`, so that a run can be reproduced.
    fn reseed(&mut self, seed: u64)
        requires
            old(self).wf(),
        ensures
            final(self).wf(),
            final(self).grid_spec() == old(self).grid_spec(),
            final(self).cells_done() == old(self).cells_done(),
            final(self).fresh() == old(self).fresh(),
    ;
}

} // verus!
