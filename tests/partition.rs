use voxel_engine::error::SimulationError;
use voxel_engine::lattice::VoxelGrid;
use voxel_engine::partition::{assign_voxels, migrate, partition, split_migrants};
use voxel_engine::plan::sources_of_voxel;

#[test]
fn cells_map_to_dense_indices() {
    let g = VoxelGrid::new(3, 3).unwrap();
    let cells = vec![(0, 0), (2, 2), (1, 0), (0, 2)];
    assert_eq!(assign_voxels(&g, &cells), Ok(vec![0, 8, 3, 2]));
}

#[test]
fn first_agent_outside_is_reported() {
    let g = VoxelGrid::new(3, 3).unwrap();
    let cells = vec![(0, 0), (3, 0), (-1, 1), (1, 1)];
    assert_eq!(assign_voxels(&g, &cells), Err(SimulationError::OutOfBounds { agent: 1 }));
    let at_upper_edge = vec![(1, 1), (1, 3)];
    assert_eq!(assign_voxels(&g, &at_upper_edge), Err(SimulationError::OutOfBounds { agent: 1 }));
}

#[test]
fn empty_population_is_assigned() {
    let g = VoxelGrid::new(2, 2).unwrap();
    assert_eq!(assign_voxels(&g, &vec![]), Ok(vec![]));
    assert_eq!(partition(4, &vec![]), vec![Vec::<usize>::new(); 4]);
}

#[test]
fn partition_holds_each_agent_once() {
    let voxel_of = vec![2, 0, 2, 1, 0, 2];
    let c = partition(4, &voxel_of);
    assert_eq!(c, vec![vec![1, 4], vec![3], vec![0, 2, 5], vec![]]);
    for a in 0..voxel_of.len() {
        let holders: Vec<usize> = (0..c.len()).filter(|&k| c[k].contains(&a)).collect();
        assert_eq!(holders, vec![voxel_of[a]]);
    }
    let total: usize = c.iter().map(|m| m.len()).sum();
    assert_eq!(total, voxel_of.len());
}

#[test]
fn container_splits_stays_and_migrants() {
    let members = vec![4, 1, 3, 0];
    let new_voxel_of = vec![2, 2, 0, 1, 2];
    assert_eq!(split_migrants(2, &members, &new_voxel_of), (vec![4, 1, 0], vec![3]));
    assert_eq!(split_migrants(0, &members, &new_voxel_of), (vec![], vec![4, 1, 3, 0]));
}

#[test]
fn migration_moves_agents_between_containers() {
    let before = partition(3, &vec![0, 1, 1]);
    assert_eq!(before, vec![vec![0], vec![1, 2], vec![]]);
    let after = migrate(&before, &vec![0, 2, 1]);
    assert_eq!(after, vec![vec![0], vec![2], vec![1]]);
    let again = migrate(&after, &vec![2, 2, 2]);
    assert_eq!(again, vec![vec![], vec![], vec![1, 0, 2]]);
}

#[test]
fn migration_keeps_each_agent_once() {
    let before = partition(4, &vec![0, 1, 2, 3, 0, 1]);
    let new_voxel_of = vec![3, 1, 0, 3, 2, 0];
    let after = migrate(&before, &new_voxel_of);
    for a in 0..new_voxel_of.len() {
        let holders: Vec<usize> = (0..after.len()).filter(|&k| after[k].contains(&a)).collect();
        assert_eq!(holders, vec![new_voxel_of[a]]);
    }
    let total: usize = after.iter().map(|m| m.len()).sum();
    assert_eq!(total, new_voxel_of.len());
}

#[test]
fn sources_cover_own_and_adjacent_voxels() {
    let g = VoxelGrid::new(3, 1).unwrap();
    let voxel_of = vec![0, 1, 2, 2, 0];
    let c = partition(3, &voxel_of);
    let mut s0 = sources_of_voxel(&g, &c, 0);
    s0.sort();
    assert_eq!(s0, vec![0, 1, 4]);
    let mut s2 = sources_of_voxel(&g, &c, 2);
    s2.sort();
    assert_eq!(s2, vec![1, 2, 3]);
    let mut s1 = sources_of_voxel(&g, &c, 1);
    s1.sort();
    assert_eq!(s1, vec![0, 1, 2, 3, 4]);
}

#[test]
fn reach_is_symmetric_on_a_grid() {
    let g = VoxelGrid::new(3, 3).unwrap();
    let cells = vec![(0, 0), (1, 1), (2, 2), (0, 2), (2, 0), (1, 0)];
    let voxel_of = assign_voxels(&g, &cells).unwrap();
    let c = partition(9, &voxel_of);
    for a in 0..cells.len() {
        for b in 0..cells.len() {
            let b_seen_by_a = sources_of_voxel(&g, &c, voxel_of[a]).contains(&b);
            let a_seen_by_b = sources_of_voxel(&g, &c, voxel_of[b]).contains(&a);
            assert_eq!(b_seen_by_a, a_seen_by_b);
        }
    }
    assert!(!sources_of_voxel(&g, &c, voxel_of[0]).contains(&2));
    assert!(sources_of_voxel(&g, &c, voxel_of[0]).contains(&1));
}
