//! The grid of cells that a maze is carved out of.
//!
//! Every cell has four boundaries (walls), one per direction. A boundary is
//! shared between the two cells on either side of it, so the grid keeps the
//! two mirrored slots equal at all times: that symmetry is stated by
//! [`Grid::symmetric`] and preserved by [`Grid::change_boundary_state`].

use vstd::prelude::*;

verus! {

/// Whether a wall is carved open or still standing.
#[derive(Clone, Copy, PartialEq, Eq, Structural, Debug)]
pub enum BoundaryState {
    Open,
    Closed,
}

/// One of the four directions a boundary of a cell can face.
#[derive(Clone, Copy, PartialEq, Eq, Structural, Debug)]
pub enum Boundary {
    Up,
    Right,
    Down,
    Left,
}

/// The direction of the same shared wall as seen from the neighbouring cell.
pub open spec fn opposite(b: Boundary) -> Boundary {
    match b {
        Boundary::Up => Boundary::Down,
        Boundary::Right => Boundary::Left,
        Boundary::Down => Boundary::Up,
        Boundary::Left => Boundary::Right,
    }
}

/// A pair of `usize` coordinates; `x` runs right, `y` runs down.
#[derive(Clone, Copy, PartialEq, Eq, Structural, Debug)]
pub struct UsizeVec2 {
    pub x: usize,
    pub y: usize,
}

/// One cell of the grid: the state of its four boundaries.
#[derive(Clone, Copy, PartialEq, Eq, Structural, Debug)]
pub struct Cell {
    pub up: BoundaryState,
    pub right: BoundaryState,
    pub down: BoundaryState,
    pub left: BoundaryState,
}

/// A cell with all four boundaries closed.
pub open spec fn closed_cell() -> Cell {
    Cell {
        up: BoundaryState::Closed,
        right: BoundaryState::Closed,
        down: BoundaryState::Closed,
        left: BoundaryState::Closed,
    }
}

impl Cell {
    /// The state of the boundary facing direction `b`.
    pub open spec fn spec_boundary(self, b: Boundary) -> BoundaryState {
        match b {
            Boundary::Up => self.up,
            Boundary::Right => self.right,
            Boundary::Down => self.down,
            Boundary::Left => self.left,
        }
    }

    /// The same cell with the boundary facing `b` set to `s`.
    pub open spec fn with_boundary(self, b: Boundary, s: BoundaryState) -> Cell {
        match b {
            Boundary::Up => Cell { up: s, ..self },
            Boundary::Right => Cell { right: s, ..self },
            Boundary::Down => Cell { down: s, ..self },
            Boundary::Left => Cell { left: s, ..self },
        }
    }

    /// Reads the boundary facing direction `b`.
    pub fn boundary(&self, b: Boundary) -> (s: BoundaryState)
        ensures
            s == self.spec_boundary(b),
    {
        match b {
            Boundary::Up => self.up,
            Boundary::Right => self.right,
            Boundary::Down => self.down,
            Boundary::Left => self.left,
        }
    }
}

/// A rectangular grid of cells, stored row-major: the cell at `(x, y)` lives
/// at index `y * size.x + x`.
pub struct Grid {
    pub size: UsizeVec2,
    pub grid: Vec<Cell>,
}

impl Grid {
    pub open spec fn width(self) -> int {
        self.size.x as int
    }

    pub open spec fn height(self) -> int {
        self.size.y as int
    }

    /// Basic well-formedness: a positive size whose cell count fits in
    /// `usize`, and a backing vector of exactly that many cells.
    pub open spec fn wf(self) -> bool {
        &&& self.width() >= 1
        &&& self.height() >= 1
        &&& self.width() * self.height() <= usize::MAX
        &&& self.grid@.len() == self.width() * self.height()
    }

    pub open spec fn in_bounds(self, x: int, y: int) -> bool {
        0 <= x < self.width() && 0 <= y < self.height()
    }

    /// The cell at `(x, y)`.
    pub open spec fn cell(self, x: int, y: int) -> Cell {
        self.grid@[y * self.width() + x]
    }

    /// Every wall is shared: for two horizontally adjacent cells the left
    /// one's right boundary equals the right one's left boundary, and for two
    /// vertically adjacent cells the upper one's down boundary equals the
    /// lower one's up boundary. [`lemma_symmetric_pairs`] restates this for
    /// an arbitrary direction.
    pub open spec fn symmetric(self) -> bool {
        &&& forall|x1: int, y1: int, x2: int, y2: int|
            #![trigger self.cell(x1, y1), self.cell(x2, y2)]
            self.in_bounds(x1, y1) && self.in_bounds(x2, y2) && x2 == x1 + 1 && y2 == y1
                ==> self.cell(x1, y1).right == self.cell(x2, y2).left
        &&& forall|x1: int, y1: int, x2: int, y2: int|
            #![trigger self.cell(x1, y1), self.cell(x2, y2)]
            self.in_bounds(x1, y1) && self.in_bounds(x2, y2) && x2 == x1 && y2 == y1 + 1
                ==> self.cell(x1, y1).down == self.cell(x2, y2).up
    }

    /// No boundary on the outer rim of the grid is open.
    pub open spec fn borders_closed(self) -> bool {
        forall|x: int, y: int|
            #![trigger self.cell(x, y)]
            self.in_bounds(x, y) ==> {
                &&& (y == 0 ==> self.cell(x, y).up == BoundaryState::Closed)
                &&& (x == self.width() - 1 ==> self.cell(x, y).right == BoundaryState::Closed)
                &&& (y == self.height() - 1 ==> self.cell(x, y).down == BoundaryState::Closed)
                &&& (x == 0 ==> self.cell(x, y).left == BoundaryState::Closed)
            }
    }

    /// Every boundary of every cell is closed (a fully walled grid).
    pub open spec fn all_closed(self) -> bool {
        forall|i: int| 0 <= i < self.grid@.len() ==> self.grid@[i] == closed_cell()
    }

    /// Allocates a `size.x` by `size.y` grid with every boundary closed.
    pub fn new(size: UsizeVec2) -> (g: Grid)
        requires
            size.x >= 1,
            size.y >= 1,
            size.x * size.y <= usize::MAX,
        ensures
            g.wf(),
            g.size == size,
            g.all_closed(),
            g.symmetric(),
            g.borders_closed(),
    {
        let n = size.x * size.y;
        let mut cells: Vec<Cell> = Vec::new();
        let mut i: usize = 0;
        while i < n
            invariant
                i <= n,
                cells@.len() == i,
                forall|k: int| 0 <= k < i ==> cells@[k] == closed_cell(),
            decreases n - i,
        {
            cells.push(Cell {
                up: BoundaryState::Closed,
                right: BoundaryState::Closed,
                down: BoundaryState::Closed,
                left: BoundaryState::Closed,
            });
            i = i + 1;
        }
        let g = Grid { size, grid: cells };
        proof {
            assert forall|x: int, y: int| g.in_bounds(x, y) implies g.cell(x, y) == closed_cell() by {
                lemma_flat_index_bounds(g.width(), g.height(), x, y);
            }
        }
        g
    }

    /// The row-major index of the cell at `(x, y)`.
    pub fn index_of(&self, x: usize, y: usize) -> (i: usize)
        requires
            self.wf(),
            x < self.size.x,
            y < self.size.y,
        ensures
            i == y * self.width() + x,
            i < self.grid@.len(),
    {
        proof {
            lemma_flat_index_bounds(self.width(), self.height(), x as int, y as int);
        }
        y * self.size.x + x
    }

    /// Reads the cell at `(x, y)`.
    pub fn cell_at(&self, x: usize, y: usize) -> (c: Cell)
        requires
            self.wf(),
            x < self.size.x,
            y < self.size.y,
        ensures
            c == self.cell(x as int, y as int),
    {
        let i = self.index_of(x, y);
        self.grid[i]
    }

    /// Overwrites the cell at `(x, y)`.
    fn set_cell(&mut self, x: usize, y: usize, c: Cell)
        requires
            old(self).wf(),
            x < old(self).size.x,
            y < old(self).size.y,
        ensures
            final(self).wf(),
            final(self).size == old(self).size,
            final(self).grid@ == old(self).grid@.update(y * old(self).width() + x, c),
    {
        let i = self.index_of(x, y);
        self.grid[i] = c;
    }

    /// Sets the boundary of the cell at `coors` facing `boundary` to `state`,
    /// and the mirrored boundary of the neighbour in that direction to the
    /// same state, so that the shared-wall symmetry is kept. The neighbour
    /// must exist: callers guard boundaries that would point off the grid.
    pub fn change_boundary_state(
        &mut self,
        coors: (usize, usize),
        boundary: Boundary,
        state: BoundaryState,
    )
        requires
            old(self).wf(),
            old(self).in_bounds(coors.0 as int, coors.1 as int),
            old(self).in_bounds(
                neighbor_x(coors.0 as int, boundary),
                neighbor_y(coors.1 as int, boundary),
            ),
        ensures
            final(self).wf(),
            final(self).size == old(self).size,
            final(self).grid@ == wall_updated(*old(self), coors.0 as int, coors.1 as int, boundary, state),
            final(self).cell(coors.0 as int, coors.1 as int)
                == old(self).cell(coors.0 as int, coors.1 as int).with_boundary(boundary, state),
            final(self).cell(
                neighbor_x(coors.0 as int, boundary),
                neighbor_y(coors.1 as int, boundary),
            ) == old(self).cell(
                neighbor_x(coors.0 as int, boundary),
                neighbor_y(coors.1 as int, boundary),
            ).with_boundary(opposite(boundary), state),
            forall|i: int, j: int|
                #![trigger final(self).cell(i, j)]
                final(self).in_bounds(i, j)
                    && !(i == coors.0 as int && j == coors.1 as int)
                    && !(i == neighbor_x(coors.0 as int, boundary)
                        && j == neighbor_y(coors.1 as int, boundary))
                    ==> final(self).cell(i, j) == old(self).cell(i, j),
            old(self).symmetric() ==> final(self).symmetric(),
            old(self).borders_closed() ==> final(self).borders_closed(),
    {
        let (x, y) = coors;
        let ghost g0 = *self;

        let here = self.cell_at(x, y);
        let there: Cell;
        let nx: usize;
        let ny: usize;
        match boundary {
            Boundary::Up => {
                nx = x;
                ny = y - 1;
            }
            Boundary::Right => {
                nx = x + 1;
                ny = y;
            }
            Boundary::Down => {
                nx = x;
                ny = y + 1;
            }
            Boundary::Left => {
                nx = x - 1;
                ny = y;
            }
        }
        there = self.cell_at(nx, ny);

        let new_here: Cell;
        let new_there: Cell;
        match boundary {
            Boundary::Up => {
                new_here = Cell { up: state, ..here };
                new_there = Cell { down: state, ..there };
            }
            Boundary::Right => {
                new_here = Cell { right: state, ..here };
                new_there = Cell { left: state, ..there };
            }
            Boundary::Down => {
                new_here = Cell { down: state, ..here };
                new_there = Cell { up: state, ..there };
            }
            Boundary::Left => {
                new_here = Cell { left: state, ..here };
                new_there = Cell { right: state, ..there };
            }
        }
        self.set_cell(x, y, new_here);
        self.set_cell(nx, ny, new_there);

        proof {
            assert(self.grid@ == wall_updated(g0, x as int, y as int, boundary, state));
            lemma_wall_updated(g0, *self, x as int, y as int, boundary, state);
        }
    }

    /// Closes every boundary of every cell, returning the grid to the fully
    /// walled state it was created in.
    pub fn close_all(&mut self)
        requires
            old(self).wf(),
        ensures
            final(self).wf(),
            final(self).size == old(self).size,
            final(self).all_closed(),
            final(self).symmetric(),
            final(self).borders_closed(),
    {
        let n = self.grid.len();
        let mut i: usize = 0;
        while i < n
            invariant
                old(self).wf(),
                self.size == old(self).size,
                self.grid@.len() == n,
                n == old(self).grid@.len(),
                i <= n,
                forall|k: int| 0 <= k < i ==> self.grid@[k] == closed_cell(),
            decreases n - i,
        {
            self.grid[i] = Cell {
                up: BoundaryState::Closed,
                right: BoundaryState::Closed,
                down: BoundaryState::Closed,
                left: BoundaryState::Closed,
            };
            i = i + 1;
        }
        proof {
            assert forall|x: int, y: int| self.in_bounds(x, y) implies #[trigger] self.cell(x, y)
                == closed_cell() by {
                lemma_flat_index_bounds(self.width(), self.height(), x, y);
            }
        }
    }
}

/// The `x` coordinate of the neighbour in direction `b`.
pub open spec fn neighbor_x(x: int, b: Boundary) -> int {
    match b {
        Boundary::Up => x,
        Boundary::Right => x + 1,
        Boundary::Down => x,
        Boundary::Left => x - 1,
    }
}

/// The `y` coordinate of the neighbour in direction `b`.
pub open spec fn neighbor_y(y: int, b: Boundary) -> int {
    match b {
        Boundary::Up => y - 1,
        Boundary::Right => y,
        Boundary::Down => y + 1,
        Boundary::Left => y,
    }
}

/// The backing sequence of `g` after the wall of the cell at `(x, y)` facing
/// `b` is set to `s` on both of its sides.
pub open spec fn wall_updated(g: Grid, x: int, y: int, b: Boundary, s: BoundaryState) -> Seq<Cell> {
    g.grid@.update(y * g.width() + x, g.cell(x, y).with_boundary(b, s)).update(
        neighbor_y(y, b) * g.width() + neighbor_x(x, b),
        g.cell(neighbor_x(x, b), neighbor_y(y, b)).with_boundary(opposite(b), s),
    )
}

/// What a shared-wall update does, cell by cell: the two touched cells get
/// their mirrored boundaries set, every other cell is unchanged, and both the
/// wall symmetry and the closed rim survive.
#[verifier::rlimit(60)]
pub proof fn lemma_wall_updated(g0: Grid, g1: Grid, x: int, y: int, b: Boundary, s: BoundaryState)
    requires
        g0.wf(),
        g0.in_bounds(x, y),
        g0.in_bounds(neighbor_x(x, b), neighbor_y(y, b)),
        g1.size == g0.size,
        g1.grid@ == wall_updated(g0, x, y, b, s),
    ensures
        g1.wf(),
        g1.cell(x, y) == g0.cell(x, y).with_boundary(b, s),
        g1.cell(neighbor_x(x, b), neighbor_y(y, b))
            == g0.cell(neighbor_x(x, b), neighbor_y(y, b)).with_boundary(opposite(b), s),
        forall|i: int, j: int|
            #![trigger g1.cell(i, j)]
            g1.in_bounds(i, j) && !(i == x && j == y)
                && !(i == neighbor_x(x, b) && j == neighbor_y(y, b))
                ==> g1.cell(i, j) == g0.cell(i, j),
        g0.symmetric() ==> g1.symmetric(),
        g0.borders_closed() ==> g1.borders_closed(),
{
    let w = g0.width();
    let h = g0.height();
    let nx = neighbor_x(x, b);
    let ny = neighbor_y(y, b);
    lemma_flat_index_bounds(w, h, x, y);
    lemma_flat_index_bounds(w, h, nx, ny);
    lemma_flat_index_injective(w, x, y, nx, ny);
    assert forall|i: int, j: int|
        #![trigger g1.cell(i, j)]
        g1.in_bounds(i, j) && !(i == x && j == y) && !(i == nx && j == ny)
        implies g1.cell(i, j) == g0.cell(i, j) by {
        lemma_flat_index_bounds(w, h, i, j);
        lemma_flat_index_injective(w, i, j, x, y);
        lemma_flat_index_injective(w, i, j, nx, ny);
    }
    if g0.symmetric() {
        lemma_wall_update_symmetric(g0, g1, x, y, b, s);
    }
    if g0.borders_closed() {
        lemma_wall_update_borders(g0, g1, x, y, b, s);
    }
}

/// Changing the boundary of a cell changes exactly that one field of it.
proof fn lemma_with_boundary_fields(c: Cell, b: Boundary, s: BoundaryState)
    ensures
        b == Boundary::Up ==> c.with_boundary(b, s) == (Cell { up: s, ..c }),
        b == Boundary::Right ==> c.with_boundary(b, s) == (Cell { right: s, ..c }),
        b == Boundary::Down ==> c.with_boundary(b, s) == (Cell { down: s, ..c }),
        b == Boundary::Left ==> c.with_boundary(b, s) == (Cell { left: s, ..c }),
{
}

/// In a symmetric grid, the boundary of the cell at `(x, y)` facing any
/// direction `b` whose neighbour exists equals the boundary the neighbour
/// shows back.
pub proof fn lemma_symmetric_pairs(g: Grid, x: int, y: int, b: Boundary)
    requires
        g.symmetric(),
        g.in_bounds(x, y),
        g.in_bounds(neighbor_x(x, b), neighbor_y(y, b)),
    ensures
        g.cell(x, y).spec_boundary(b)
            == g.cell(neighbor_x(x, b), neighbor_y(y, b)).spec_boundary(opposite(b)),
{
    let nx = neighbor_x(x, b);
    let ny = neighbor_y(y, b);
    match b {
        Boundary::Up => {
            assert(g.cell(nx, ny).down == g.cell(x, y).up);
        }
        Boundary::Right => {
            assert(g.cell(x, y).right == g.cell(nx, ny).left);
        }
        Boundary::Down => {
            assert(g.cell(x, y).down == g.cell(nx, ny).up);
        }
        Boundary::Left => {
            assert(g.cell(nx, ny).right == g.cell(x, y).left);
        }
    }
}

/// A shared-wall update keeps the grid symmetric: the two touched slots are
/// the two sides of one and the same wall.
proof fn lemma_wall_update_symmetric(g0: Grid, g1: Grid, x: int, y: int, b: Boundary, s: BoundaryState)
    requires
        g0.wf(),
        g1.wf(),
        g1.size == g0.size,
        g0.in_bounds(x, y),
        g0.in_bounds(neighbor_x(x, b), neighbor_y(y, b)),
        g1.cell(x, y) == g0.cell(x, y).with_boundary(b, s),
        g1.cell(neighbor_x(x, b), neighbor_y(y, b))
            == g0.cell(neighbor_x(x, b), neighbor_y(y, b)).with_boundary(opposite(b), s),
        forall|i: int, j: int|
            #![trigger g1.cell(i, j)]
            g1.in_bounds(i, j) && !(i == x && j == y)
                && !(i == neighbor_x(x, b) && j == neighbor_y(y, b))
                ==> g1.cell(i, j) == g0.cell(i, j),
        g0.symmetric(),
    ensures
        g1.symmetric(),
{
    let nx = neighbor_x(x, b);
    let ny = neighbor_y(y, b);
    lemma_with_boundary_fields(g0.cell(x, y), b, s);
    lemma_with_boundary_fields(g0.cell(nx, ny), opposite(b), s);
    assert forall|x1: int, y1: int, x2: int, y2: int|
        #![trigger g1.cell(x1, y1), g1.cell(x2, y2)]
        g1.in_bounds(x1, y1) && g1.in_bounds(x2, y2) && x2 == x1 + 1 && y2 == y1
        implies g1.cell(x1, y1).right == g1.cell(x2, y2).left by {
        assert(g0.cell(x1, y1).right == g0.cell(x2, y2).left);
    }
    assert forall|x1: int, y1: int, x2: int, y2: int|
        #![trigger g1.cell(x1, y1), g1.cell(x2, y2)]
        g1.in_bounds(x1, y1) && g1.in_bounds(x2, y2) && x2 == x1 && y2 == y1 + 1
        implies g1.cell(x1, y1).down == g1.cell(x2, y2).up by {
        assert(g0.cell(x1, y1).down == g0.cell(x2, y2).up);
    }
}

/// A shared-wall update between two in-bounds cells never touches a boundary
/// on the outer rim, so a closed rim stays closed.
proof fn lemma_wall_update_borders(g0: Grid, g1: Grid, x: int, y: int, b: Boundary, s: BoundaryState)
    requires
        g0.wf(),
        g1.wf(),
        g1.size == g0.size,
        g0.in_bounds(x, y),
        g0.in_bounds(neighbor_x(x, b), neighbor_y(y, b)),
        g1.cell(x, y) == g0.cell(x, y).with_boundary(b, s),
        g1.cell(neighbor_x(x, b), neighbor_y(y, b))
            == g0.cell(neighbor_x(x, b), neighbor_y(y, b)).with_boundary(opposite(b), s),
        forall|i: int, j: int|
            #![trigger g1.cell(i, j)]
            g1.in_bounds(i, j) && !(i == x && j == y)
                && !(i == neighbor_x(x, b) && j == neighbor_y(y, b))
                ==> g1.cell(i, j) == g0.cell(i, j),
        g0.borders_closed(),
    ensures
        g1.borders_closed(),
{
    let w = g0.width();
    let h = g0.height();
    assert forall|i: int, j: int|
        #![trigger g1.cell(i, j)]
        g1.in_bounds(i, j) implies {
        &&& (j == 0 ==> g1.cell(i, j).up == BoundaryState::Closed)
        &&& (i == w - 1 ==> g1.cell(i, j).right == BoundaryState::Closed)
        &&& (j == h - 1 ==> g1.cell(i, j).down == BoundaryState::Closed)
        &&& (i == 0 ==> g1.cell(i, j).left == BoundaryState::Closed)
    } by {
        lemma_with_boundary_fields(g0.cell(x, y), b, s);
        lemma_with_boundary_fields(
            g0.cell(neighbor_x(x, b), neighbor_y(y, b)),
            opposite(b),
            s,
        );
        assert(g0.in_bounds(i, j));
    }
}

/// A row-major index of an in-bounds coordinate pair is itself in bounds.
pub proof fn lemma_flat_index_bounds(w: int, h: int, x: int, y: int)
    requires
        0 <= x < w,
        0 <= y < h,
    ensures
        0 <= y * w + x < w * h,
{
    assert(0 <= y * w + x < w * h) by (nonlinear_arith)
        requires
            0 <= x < w,
            0 <= y < h,
    ;
}

/// Distinct in-bounds coordinate pairs have distinct row-major indices.
pub proof fn lemma_flat_index_injective(w: int, x1: int, y1: int, x2: int, y2: int)
    requires
        0 <= x1 < w,
        0 <= x2 < w,
    ensures
        y1 * w + x1 == y2 * w + x2 ==> (x1 == x2 && y1 == y2),
{
    assert(y1 * w + x1 == y2 * w + x2 ==> (x1 == x2 && y1 == y2)) by (nonlinear_arith)
        requires
            0 <= x1 < w,
            0 <= x2 < w,
    ;
}

/// The contribution of the cell at flat index `i` to the count of open
/// boundary pairs: its up wall counts when it is not in the top row and its
/// right wall counts when it is not in the last column, so every shared wall
/// is counted exactly once, at exactly one of its two sides.
pub open spec fn pair_contrib(g: Grid, i: int) -> int {
    (if g.grid@[i].up == BoundaryState::Open && i >= g.width() {
        1int
    } else {
        0int
    }) + (if g.grid@[i].right == BoundaryState::Open && i % g.width() < g.width() - 1 {
        1int
    } else {
        0int
    })
}

/// The sum of `pair_contrib` over the cells from flat index `i` on.
pub open spec fn open_pairs_from(g: Grid, i: int) -> int
    decreases g.grid@.len() - i,
{
    if 0 <= i < g.grid@.len() {
        pair_contrib(g, i) + open_pairs_from(g, i + 1)
    } else {
        0
    }
}

/// The number of shared walls of the grid that stand open.
pub open spec fn open_pairs(g: Grid) -> int {
    open_pairs_from(g, 0)
}

proof fn lemma_open_pairs_from_congruent(g1: Grid, g2: Grid, i: int)
    requires
        g1.grid@.len() == g2.grid@.len(),
        g1.size == g2.size,
        forall|k: int| i <= k < g1.grid@.len() ==> pair_contrib(g1, k) == pair_contrib(g2, k),
    ensures
        open_pairs_from(g1, i) == open_pairs_from(g2, i),
    decreases g1.grid@.len() - i,
{
    if 0 <= i < g1.grid@.len() {
        lemma_open_pairs_from_congruent(g1, g2, i + 1);
    }
}

proof fn lemma_open_pairs_from_update(g1: Grid, g2: Grid, j: int, i: int)
    requires
        g1.grid@.len() == g2.grid@.len(),
        g1.size == g2.size,
        0 <= j < g1.grid@.len(),
        forall|k: int|
            0 <= k < g1.grid@.len() && k != j ==> pair_contrib(g1, k) == pair_contrib(g2, k),
        0 <= i <= j,
    ensures
        open_pairs_from(g2, i) == open_pairs_from(g1, i) + pair_contrib(g2, j) - pair_contrib(
            g1,
            j,
        ),
    decreases j - i,
{
    if i == j {
        lemma_open_pairs_from_congruent(g1, g2, i + 1);
    } else {
        lemma_open_pairs_from_update(g1, g2, j, i + 1);
    }
}

/// If two grids of one size differ in their pair contributions at exactly
/// one flat index `j`, their open-pair counts differ by exactly that
/// contribution difference.
pub proof fn lemma_open_pairs_update(g1: Grid, g2: Grid, j: int)
    requires
        g1.grid@.len() == g2.grid@.len(),
        g1.size == g2.size,
        0 <= j < g1.grid@.len(),
        forall|k: int|
            0 <= k < g1.grid@.len() && k != j ==> pair_contrib(g1, k) == pair_contrib(g2, k),
    ensures
        open_pairs(g2) == open_pairs(g1) + pair_contrib(g2, j) - pair_contrib(g1, j),
{
    lemma_open_pairs_from_update(g1, g2, j, 0);
}

proof fn lemma_open_pairs_from_closed(g: Grid, i: int)
    requires
        g.all_closed(),
    ensures
        open_pairs_from(g, i) == 0,
    decreases g.grid@.len() - i,
{
    if 0 <= i < g.grid@.len() {
        lemma_open_pairs_from_closed(g, i + 1);
    }
}

/// A fully walled grid has no open pairs.
pub proof fn lemma_open_pairs_all_closed(g: Grid)
    requires
        g.all_closed(),
    ensures
        open_pairs(g) == 0,
{
    lemma_open_pairs_from_closed(g, 0);
}

/// The pair contribution of an in-bounds cell, written over its coordinates:
/// its up wall counts exactly when it is not in the top row, its right wall
/// exactly when it is not in the last column.
pub proof fn lemma_pair_contrib_coords(g: Grid, x: int, y: int)
    requires
        g.wf(),
        g.in_bounds(x, y),
    ensures
        pair_contrib(g, y * g.width() + x) == (if g.cell(x, y).up == BoundaryState::Open && y > 0 {
            1int
        } else {
            0int
        }) + (if g.cell(x, y).right == BoundaryState::Open && x < g.width() - 1 {
            1int
        } else {
            0int
        }),
{
    let w = g.width();
    let i = y * w + x;
    lemma_flat_index_bounds(w, g.height(), x, y);
    vstd::arithmetic::div_mod::lemma_fundamental_div_mod_converse(i, w, y, x);
    assert(i >= w <==> y > 0) by (nonlinear_arith)
        requires
            i == y * w + x,
            0 <= x < w,
            0 <= y,
    ;
}

/// Opening the up wall of an in-bounds cell below the top row, when that
/// wall was closed, raises the count of open pairs by exactly one.
pub proof fn lemma_open_up_adds_pair(g1: Grid, g2: Grid, x: int, y: int)
    requires
        g1.wf(),
        g1.in_bounds(x, y),
        y > 0,
        g1.cell(x, y).up == BoundaryState::Closed,
        g2.size == g1.size,
        g2.grid@ == wall_updated(g1, x, y, Boundary::Up, BoundaryState::Open),
    ensures
        open_pairs(g2) == open_pairs(g1) + 1,
{
    let w = g1.width();
    let h = g1.height();
    let k = y * w + x;
    let m = (y - 1) * w + x;
    lemma_flat_index_bounds(w, h, x, y);
    lemma_flat_index_bounds(w, h, x, y - 1);
    lemma_flat_index_injective(w, x, y, x, y - 1);
    lemma_wall_updated(g1, g2, x, y, Boundary::Up, BoundaryState::Open);
    assert forall|kk: int| 0 <= kk < g1.grid@.len() && kk != k implies pair_contrib(g1, kk)
        == pair_contrib(g2, kk) by {
        if kk == m {
            assert(g2.grid@[m] == g1.cell(x, y - 1).with_boundary(
                Boundary::Down,
                BoundaryState::Open,
            ));
        }
    }
    lemma_open_pairs_update(g1, g2, k);
    lemma_pair_contrib_coords(g1, x, y);
    lemma_pair_contrib_coords(g2, x, y);
}

/// Opening the right wall of an in-bounds cell left of the last column, when
/// that wall was closed, raises the count of open pairs by exactly one.
pub proof fn lemma_open_right_adds_pair(g1: Grid, g2: Grid, x: int, y: int)
    requires
        g1.wf(),
        g1.in_bounds(x, y),
        x < g1.width() - 1,
        g1.cell(x, y).right == BoundaryState::Closed,
        g2.size == g1.size,
        g2.grid@ == wall_updated(g1, x, y, Boundary::Right, BoundaryState::Open),
    ensures
        open_pairs(g2) == open_pairs(g1) + 1,
{
    let w = g1.width();
    let h = g1.height();
    let k = y * w + x;
    let m = y * w + (x + 1);
    lemma_flat_index_bounds(w, h, x, y);
    lemma_flat_index_bounds(w, h, x + 1, y);
    lemma_flat_index_injective(w, x, y, x + 1, y);
    lemma_wall_updated(g1, g2, x, y, Boundary::Right, BoundaryState::Open);
    assert forall|kk: int| 0 <= kk < g1.grid@.len() && kk != k implies pair_contrib(g1, kk)
        == pair_contrib(g2, kk) by {
        if kk == m {
            assert(g2.grid@[m] == g1.cell(x + 1, y).with_boundary(
                Boundary::Left,
                BoundaryState::Open,
            ));
        }
    }
    lemma_open_pairs_update(g1, g2, k);
    lemma_pair_contrib_coords(g1, x, y);
    lemma_pair_contrib_coords(g2, x, y);
}

/// A well-formed grid has at least one cell, and at least one whole row.
pub proof fn lemma_grid_count_bounds(g: Grid)
    requires
        g.wf(),
    ensures
        g.width() * g.height() >= g.width(),
        g.width() * g.height() >= 1,
{
    assert(g.width() * g.height() >= g.width() && g.width() * g.height() >= 1)
        by (nonlinear_arith)
        requires
            g.width() >= 1,
            g.height() >= 1,
    ;
}

/// Opening the up or right wall of the cell at `(x, y)` leaves the up and
/// right walls of every other cell unchanged: the mirrored slot lives in the
/// neighbour's down or left field.
pub proof fn lemma_wall_update_keeps_up_right(
    g1: Grid,
    g2: Grid,
    x: int,
    y: int,
    b: Boundary,
    s: BoundaryState,
    i: int,
)
    requires
        g1.wf(),
        g1.in_bounds(x, y),
        g1.in_bounds(neighbor_x(x, b), neighbor_y(y, b)),
        g2.size == g1.size,
        g2.grid@ == wall_updated(g1, x, y, b, s),
        0 <= i < g1.grid@.len(),
        i != y * g1.width() + x,
        b == Boundary::Up || b == Boundary::Right,
    ensures
        g2.grid@[i].up == g1.grid@[i].up,
        g2.grid@[i].right == g1.grid@[i].right,
{
    let w = g1.width();
    let h = g1.height();
    let k = y * w + x;
    lemma_flat_index_bounds(w, h, x, y);
    assert(g1.grid@.update(k, g1.cell(x, y).with_boundary(b, s)).len() == g1.grid@.len());
    match b {
        Boundary::Up => {
            let m = (y - 1) * w + x;
            lemma_flat_index_bounds(w, h, x, y - 1);
            assert((y - 1) * w == y * w - w) by (nonlinear_arith);
            assert(m != k);
            assert(g2.grid@ == g1.grid@.update(k, g1.cell(x, y).with_boundary(b, s)).update(
                m,
                g1.cell(x, y - 1).with_boundary(Boundary::Down, s),
            ));
            if i == m {
                assert(g2.grid@[m] == g1.cell(x, y - 1).with_boundary(
                    Boundary::Down,
                    s,
                ));
            } else {
                assert(g2.grid@[i] == g1.grid@[i]);
            }
        }
        Boundary::Right => {
            let m = y * w + (x + 1);
            lemma_flat_index_bounds(w, h, x + 1, y);
            assert(m != k);
            assert(g2.grid@ == g1.grid@.update(k, g1.cell(x, y).with_boundary(b, s)).update(
                m,
                g1.cell(x + 1, y).with_boundary(Boundary::Left, s),
            ));
            if i == m {
                assert(g2.grid@[m] == g1.cell(x + 1, y).with_boundary(
                    Boundary::Left,
                    s,
                ));
            } else {
                assert(g2.grid@[i] == g1.grid@[i]);
            }
        }
        Boundary::Down => {}
        Boundary::Left => {}
    }
}

} // verus!
