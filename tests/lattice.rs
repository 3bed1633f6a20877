use voxel_engine::error::SimulationError;
use voxel_engine::lattice::{Voxel, VoxelGrid};

fn grid(nx: usize, ny: usize) -> VoxelGrid {
    VoxelGrid::new(nx, ny).unwrap()
}

#[test]
fn grid_rejects_empty_dimension() {
    assert_eq!(VoxelGrid::new(0, 3), Err(SimulationError::InvalidDomain));
    assert_eq!(VoxelGrid::new(3, 0), Err(SimulationError::InvalidDomain));
    assert_eq!(VoxelGrid::new(usize::MAX, 2), Err(SimulationError::InvalidDomain));
    assert_eq!(VoxelGrid::new(1, 1), Ok(VoxelGrid { nx: 1, ny: 1 }));
}

#[test]
fn grid_counts_voxels() {
    assert_eq!(grid(3, 3).n_voxels(), 9);
    assert_eq!(grid(2, 5).n_voxels(), 10);
}

#[test]
fn cell_outside_grid_has_no_voxel() {
    let g = grid(3, 3);
    assert_eq!(g.voxel_of_cell(0, 0), Some(Voxel { x: 0, y: 0 }));
    assert_eq!(g.voxel_of_cell(2, 1), Some(Voxel { x: 2, y: 1 }));
    assert_eq!(g.voxel_of_cell(3, 0), None);
    assert_eq!(g.voxel_of_cell(0, 3), None);
    assert_eq!(g.voxel_of_cell(-1, 0), None);
    assert_eq!(g.voxel_of_cell(1, -1), None);
}

#[test]
fn index_and_voxel_are_inverse() {
    let g = grid(3, 4);
    assert_eq!(g.index(Voxel { x: 2, y: 3 }), 11);
    assert_eq!(g.index(Voxel { x: 1, y: 0 }), 4);
    for i in 0..12 {
        assert_eq!(g.index(g.voxel_at(i)), i);
    }
    assert_eq!(g.voxel_at(5), Voxel { x: 1, y: 1 });
}

#[test]
fn corner_voxel_has_three_neighbors() {
    let g = grid(3, 3);
    assert_eq!(
        g.neighbors_of(Voxel { x: 0, y: 0 }),
        vec![Voxel { x: 0, y: 1 }, Voxel { x: 1, y: 0 }, Voxel { x: 1, y: 1 }]
    );
}

#[test]
fn center_voxel_has_eight_neighbors_in_order() {
    let g = grid(3, 3);
    let n = g.neighbors_of(Voxel { x: 1, y: 1 });
    assert_eq!(n.len(), 8);
    assert!(!n.contains(&Voxel { x: 1, y: 1 }));
    assert_eq!(n[0], Voxel { x: 0, y: 0 });
    assert_eq!(n[7], Voxel { x: 2, y: 2 });
}

#[test]
fn single_voxel_has_no_neighbors() {
    assert!(grid(1, 1).neighbors_of(Voxel { x: 0, y: 0 }).is_empty());
}

#[test]
fn edge_voxel_neighbors() {
    let g = grid(4, 2);
    assert_eq!(
        g.neighbors_of(Voxel { x: 3, y: 1 }),
        vec![Voxel { x: 2, y: 0 }, Voxel { x: 2, y: 1 }, Voxel { x: 3, y: 0 }]
    );
}
