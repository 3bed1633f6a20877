use voxel_engine::clock::Clock;
use voxel_engine::error::SimulationError;
use voxel_engine::store::{AgentState, CheckpointStore};

#[test]
fn clock_rejects_bad_save_points() {
    assert!(matches!(Clock::new(vec![3, 3]), Err(SimulationError::Configuration)));
    assert!(matches!(Clock::new(vec![4, 2]), Err(SimulationError::Configuration)));
    assert!(matches!(Clock::new(vec![0, 2]), Err(SimulationError::Configuration)));
    assert!(Clock::new(vec![]).unwrap().is_finished());
}

#[test]
fn save_points_fire_once_each() {
    let mut c = Clock::new(vec![2, 3, 6]).unwrap();
    let fired: Vec<Option<u64>> = (0..7).map(|_| c.advance()).collect();
    assert_eq!(fired, vec![None, Some(2), Some(3), None, None, Some(6), None]);
    assert!(c.is_finished());
    assert_eq!(c.step, 7);
}

fn state(v: u32) -> AgentState {
    AgentState { pos_x: v, pos_y: v + 1, vel_x: v + 2, vel_y: v + 3 }
}

#[test]
fn checkpoint_round_trip() {
    let mut s = CheckpointStore::new();
    assert_eq!(s.load(5), None);
    let snap = vec![state(1), state(7)];
    s.save(5, &snap);
    assert_eq!(s.load(5), Some(snap.clone()));
    assert!(s.has(5));
    assert!(!s.has(6));
}

#[test]
fn checkpoint_overwrite_keeps_other_steps() {
    let mut s = CheckpointStore::new();
    s.save(5, &vec![state(1)]);
    s.save(10, &vec![state(2)]);
    s.save(5, &vec![state(3), state(4)]);
    assert_eq!(s.load(5), Some(vec![state(3), state(4)]));
    assert_eq!(s.load(10), Some(vec![state(2)]));
}

#[test]
fn checkpoint_keeps_float_bits() {
    let mut s = CheckpointStore::new();
    let x: f32 = 12.345;
    let snap = vec![AgentState { pos_x: x.to_bits(), pos_y: (-0.0f32).to_bits(), vel_x: 0, vel_y: 1 }];
    s.save(1, &snap);
    let back = s.load(1).unwrap();
    assert_eq!(f32::from_bits(back[0].pos_x), x);
    assert_eq!(back[0].pos_y, (-0.0f32).to_bits());
}
