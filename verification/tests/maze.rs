use maze_generators::djikstra_distances::calculate_distances;
use maze_generators::generators::binary_tree::BinaryTreeGenerator;
use maze_generators::generators::sidewinder::SidewinderGenerator;
use maze_generators::generators::{GenerationState, MazeGenerator};
use maze_generators::grid::{Boundary, BoundaryState, Grid, UsizeVec2};

fn open_pairs(g: &Grid) -> usize {
    let mut count = 0;
    for y in 0..g.size.y {
        for x in 0..g.size.x {
            let c = g.cell_at(x, y);
            if y > 0 && c.up == BoundaryState::Open {
                count += 1;
            }
            if x + 1 < g.size.x && c.right == BoundaryState::Open {
                count += 1;
            }
        }
    }
    count
}

fn assert_symmetric(g: &Grid) {
    for y in 0..g.size.y {
        for x in 0..g.size.x {
            let c = g.cell_at(x, y);
            if x + 1 < g.size.x {
                assert_eq!(c.right == BoundaryState::Open, g.cell_at(x + 1, y).left == BoundaryState::Open);
            }
            if y + 1 < g.size.y {
                assert_eq!(c.down == BoundaryState::Open, g.cell_at(x, y + 1).up == BoundaryState::Open);
            }
        }
    }
}

#[test]
fn binary_tree_spanning_tree_edge_count() {
    for (w, h) in [(1, 1), (4, 3), (8, 8), (1, 5), (5, 1)] {
        let grid = Grid::new(UsizeVec2 { x: w, y: h });
        let mut g = BinaryTreeGenerator::new(grid);
        g.generate();
        assert_eq!(open_pairs(&g.grid), w * h - 1);
        assert_symmetric(&g.grid);
    }
}

#[test]
fn sidewinder_spanning_tree_edge_count() {
    for (w, h) in [(1, 1), (4, 3), (8, 8), (1, 5), (5, 1)] {
        let grid = Grid::new(UsizeVec2 { x: w, y: h });
        let mut g = SidewinderGenerator::new(grid);
        g.generate();
        assert_eq!(open_pairs(&g.grid), w * h - 1);
        assert_symmetric(&g.grid);
    }
}

#[test]
fn generated_mazes_fully_connected() {
    let grid = Grid::new(UsizeVec2 { x: 6, y: 7 });
    let mut g = BinaryTreeGenerator::new(grid);
    g.generate();
    let f = calculate_distances(&g.grid, (3, 3));
    assert_eq!(f.distances.len(), 42);
    assert!(f.distances.iter().all(|&d| d != i32::MAX));
    let grid = Grid::new(UsizeVec2 { x: 6, y: 7 });
    let mut g = SidewinderGenerator::new(grid);
    g.generate();
    let f = calculate_distances(&g.grid, (0, 0));
    assert!(f.distances.iter().all(|&d| d != i32::MAX));
}

#[test]
fn toggle_keeps_walls_shared() {
    let mut grid = Grid::new(UsizeVec2 { x: 3, y: 3 });
    grid.change_boundary_state((1, 1), Boundary::Up, BoundaryState::Open);
    grid.change_boundary_state((1, 1), Boundary::Left, BoundaryState::Open);
    assert_symmetric(&grid);
    assert_eq!(grid.cell_at(1, 0).down, BoundaryState::Open);
    assert_eq!(grid.cell_at(0, 1).right, BoundaryState::Open);
    assert_eq!(open_pairs(&grid), 2);
}

#[test]
fn step_after_finished_is_a_no_op() {
    let grid = Grid::new(UsizeVec2 { x: 3, y: 2 });
    let mut g = BinaryTreeGenerator::new(grid);
    g.generate();
    let before: Vec<_> = (0..2).flat_map(|y| (0..3).map(move |x| (x, y))).map(|(x, y)| g.grid.cell_at(x, y)).collect();
    assert!(matches!(g.step(), GenerationState::Finished));
    g.generate();
    let after: Vec<_> = (0..2).flat_map(|y| (0..3).map(move |x| (x, y))).map(|(x, y)| g.grid.cell_at(x, y)).collect();
    assert_eq!(before, after);
}

#[test]
fn distances_on_one_cell_grid() {
    let grid = Grid::new(UsizeVec2 { x: 1, y: 1 });
    let f = calculate_distances(&grid, (0, 0));
    assert_eq!(f.distances, vec![0]);
    assert_eq!(f.max_distance, 0);
}

#[test]
fn binary_tree_two_by_two_corner() {
    let grid = Grid::new(UsizeVec2 { x: 2, y: 2 });
    let mut g = BinaryTreeGenerator::new(grid);
    g.generate();
    let corner = g.grid.cell_at(1, 0);
    assert_eq!(corner.up, BoundaryState::Closed);
    assert_eq!(corner.right, BoundaryState::Closed);
    let first = g.grid.cell_at(0, 0);
    let opened = (first.up == BoundaryState::Open) as u32 + (first.right == BoundaryState::Open) as u32;
    assert_eq!(opened, 1);
}

#[test]
fn distances_on_row_corridor() {
    let mut grid = Grid::new(UsizeVec2 { x: 3, y: 1 });
    grid.change_boundary_state((0, 0), Boundary::Right, BoundaryState::Open);
    grid.change_boundary_state((1, 0), Boundary::Right, BoundaryState::Open);
    let f = calculate_distances(&grid, (0, 0));
    assert_eq!(f.distances, vec![0, 1, 2]);
    assert_eq!(f.max_distance, 2);
}

#[test]
fn reseeded_regeneration_reproduces_the_maze() {
    for seed in [1u64, 42, 1234567] {
        let grid = Grid::new(UsizeVec2 { x: 7, y: 5 });
        let mut g = SidewinderGenerator::new(grid);
        g.reseed(seed);
        g.generate();
        let first: Vec<_> = (0..5).flat_map(|y| (0..7).map(move |x| (x, y))).map(|(x, y)| g.grid.cell_at(x, y)).collect();
        g.grid.close_all();
        g.reset();
        g.reseed(seed);
        g.generate();
        let second: Vec<_> = (0..5).flat_map(|y| (0..7).map(move |x| (x, y))).map(|(x, y)| g.grid.cell_at(x, y)).collect();
        assert_eq!(first, second);
    }
}
