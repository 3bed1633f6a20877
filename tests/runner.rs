use voxel_engine::error::SimulationError;
use voxel_engine::runner::{assign_workers, Action, Event, Phase, Runner};
use voxel_engine::store::{AgentState, CheckpointStore};

#[test]
fn configuration_is_validated() {
    assert!(matches!(Runner::new(0, 3, 4, vec![5]), Err(SimulationError::Configuration)));
    assert!(matches!(Runner::new(10, 0, 4, vec![5]), Err(SimulationError::Configuration)));
    assert!(matches!(Runner::new(10, 3, 0, vec![5]), Err(SimulationError::Configuration)));
    assert!(matches!(Runner::new(10, 3, 4, vec![5, 5]), Err(SimulationError::Configuration)));
    assert!(matches!(Runner::new(10, usize::MAX, 4, vec![5]), Err(SimulationError::InvalidDomain)));
    let r = Runner::new(10, 3, 4, vec![5]).unwrap();
    assert_eq!(r.phase, Phase::Stepping);
    assert_eq!(r.pending(), Action::ComputeTick);
    assert_eq!(Runner::new(10, 3, 4, vec![]).unwrap().pending(), Action::Stop);
}

#[test]
fn run_checkpoints_then_finishes() {
    let mut r = Runner::new(2, 1, 1, vec![2, 3]).unwrap();
    assert_eq!(r.on_event(Event::TickDone), Action::ComputeTick);
    assert_eq!(r.on_event(Event::TickDone), Action::WriteCheckpoint { step: 2 });
    assert_eq!(r.on_event(Event::TickDone), Action::WriteCheckpoint { step: 2 });
    assert_eq!(r.on_event(Event::CheckpointDone), Action::ComputeTick);
    assert_eq!(r.on_event(Event::TickDone), Action::WriteCheckpoint { step: 3 });
    assert_eq!(r.on_event(Event::CheckpointDone), Action::Stop);
    assert_eq!(r.phase, Phase::Finished);
    assert_eq!(r.on_event(Event::TickDone), Action::Stop);
}

#[test]
fn tick_error_fails_the_run() {
    let mut r = Runner::new(2, 1, 1, vec![4]).unwrap();
    let e = SimulationError::Numerical { agent: 1 };
    assert_eq!(r.on_event(Event::TickFailed(e)), Action::Stop);
    assert_eq!(r.phase, Phase::Failed(e));
    let mut o = Runner::new(2, 1, 1, vec![4]).unwrap();
    let e = SimulationError::OutOfBounds { agent: 0 };
    o.on_event(Event::TickFailed(e));
    assert_eq!(o.phase, Phase::Failed(SimulationError::OutOfBounds { agent: 0 }));
}

#[test]
fn storage_error_fails_the_run() {
    let mut r = Runner::new(2, 1, 1, vec![1]).unwrap();
    assert_eq!(r.on_event(Event::TickDone), Action::WriteCheckpoint { step: 1 });
    assert_eq!(r.on_event(Event::CheckpointFailed), Action::Stop);
    assert_eq!(r.phase, Phase::Failed(SimulationError::Storage));
}

#[test]
fn stop_request_is_taken_between_ticks() {
    let mut r = Runner::new(2, 1, 1, vec![10]).unwrap();
    r.on_event(Event::TickDone);
    assert_eq!(r.on_event(Event::StopRequested), Action::Stop);
    assert_eq!(r.phase, Phase::Finished);
    assert_eq!(r.clock.step, 1);
}

#[test]
fn workers_take_voxels_round_robin() {
    assert_eq!(assign_workers(9, 4), vec![vec![0, 4, 8], vec![1, 5], vec![2, 6], vec![3, 7]]);
    assert_eq!(assign_workers(2, 3), vec![vec![0], vec![1], vec![]]);
}

#[test]
fn two_hundred_agents_one_record_at_five() {
    // dt = 0.002: the save points 5, 10, 15 and 20 fall on these steps.
    let mut r = Runner::new(200, 3, 4, vec![2500, 5000, 7500, 10000]).unwrap();
    let mut store = CheckpointStore::new();
    let snapshot: Vec<AgentState> =
        (0..200u32).map(|i| AgentState { pos_x: i, pos_y: i, vel_x: 0, vel_y: 0 }).collect();
    let mut writes = 0;
    while r.clock.step < 2500 || r.phase == Phase::Checkpointing {
        let action = r.pending();
        let event = match action {
            Action::ComputeTick => Event::TickDone,
            Action::WriteCheckpoint { step } => {
                store.save(step, &snapshot);
                writes += 1;
                Event::CheckpointDone
            }
            Action::Stop => break,
        };
        r.on_event(event);
    }
    assert_eq!(r.clock.step, 2500);
    assert_eq!(writes, 1);
    assert_eq!(store.load(2500).map(|s| s.len()), Some(200));
    assert!(!store.has(2499) && !store.has(5000));
}
