use vstd::prelude::*;

use crate::clock::{valid_save_steps, Clock};
use crate::error::SimulationError;
use crate::lattice::VoxelGrid;

verus! {

/// Where a run stands.
#[derive(Clone, Copy, Debug, PartialEq, Eq, Structural)]
pub enum Phase {
    Stepping,
    Checkpointing,
    Finished,
    Failed(SimulationError),
}

/// What the driver reports back after carrying out an action.
#[derive(Clone, Copy, Debug, PartialEq, Eq, Structural)]
pub enum Event {
    /// Forces, integration and migration of one tick completed.
    TickDone,
    /// The tick was aborted by an error.
    TickFailed(SimulationError),
    /// The requested checkpoint was written.
    CheckpointDone,
    /// The checkpoint could not be written, retries included.
    CheckpointFailed,
    /// An outside stop request, taken at a tick boundary.
    StopRequested,
}

/// What the driver is to do next.
#[derive(Clone, Copy, Debug, PartialEq, Eq, Structural)]
pub enum Action {
    /// Compute one tick: forces, then integration, then migration.
    ComputeTick,
    /// Persist the population as it stands at `step`.
    WriteCheckpoint { step: u64 },
    /// The run is over.
    Stop,
}

/// The action that a phase calls for.
pub open spec fn action_of(phase: Phase, step: u64) -> Action {
    match phase {
        Phase::Stepping => Action::ComputeTick,
        Phase::Checkpointing => Action::WriteCheckpoint { step },
        _ => Action::Stop,
    }
}

/// The decisions of a run: the clock, the grid and the current phase.
pub struct Runner {
    pub phase: Phase,
    pub clock: Clock,
    pub grid: VoxelGrid,
    pub n_agents: usize,
    pub n_threads: usize,
}

impl Runner {
    pub open spec fn wf(&self) -> bool {
        &&& self.clock.wf()
        &&& self.grid.wf()
        &&& self.phase == Phase::Stepping ==> !self.clock.finished()
        &&& self.phase == Phase::Checkpointing ==> self.clock.next_save > 0
            && self.clock.save_steps[self.clock.next_save - 1] == self.clock.step
    }

    /// Validates the configuration and starts a run at step zero: stepping while a
    /// save point lies ahead, finished at once when there is none.
    pub fn new(n_agents: usize, n_voxels: usize, n_threads: usize, save_steps: Vec<u64>) -> (r: Result<
        Runner,
        SimulationError,
    >)
        ensures
            r matches Err(e) ==> (e == SimulationError::Configuration <==> (n_agents == 0 || n_voxels == 0
                || n_threads == 0 || !valid_save_steps(save_steps@))),
            r matches Err(e) ==> (e == SimulationError::Configuration || e == SimulationError::InvalidDomain),
            r is Ok <==> (n_agents > 0 && n_voxels > 0 && n_threads > 0 && valid_save_steps(save_steps@)
                && n_voxels * n_voxels <= usize::MAX),
            r matches Ok(run) ==> {
                &&& run.wf()
                &&& run.grid == (VoxelGrid { nx: n_voxels, ny: n_voxels })
                &&& run.n_agents == n_agents
                &&& run.n_threads == n_threads
                &&& run.clock.step == 0
                &&& run.clock.next_save == 0
                &&& run.clock.save_steps@ == save_steps@
                &&& run.phase == (if save_steps.len() == 0 { Phase::Finished } else { Phase::Stepping })
            },
    {
        if n_agents == 0 || n_voxels == 0 || n_threads == 0 {
            return Err(SimulationError::Configuration);
        }
        let clock = match Clock::new(save_steps) {
            Ok(c) => c,
            Err(e) => {
                return Err(e);
            },
        };
        let grid = match VoxelGrid::new(n_voxels, n_voxels) {
            Ok(g) => g,
            Err(e) => {
                return Err(e);
            },
        };
        let phase = if clock.is_finished() { Phase::Finished } else { Phase::Stepping };
        Ok(Runner { phase, clock, grid, n_agents, n_threads })
    }

    /// The action that the current phase calls for.
    pub fn pending(&self) -> (r: Action)
        ensures
            r == action_of(self.phase, self.clock.step),
    {
        match self.phase {
            Phase::Stepping => Action::ComputeTick,
            Phase::Checkpointing => Action::WriteCheckpoint { step: self.clock.step },
            _ => Action::Stop,
        }
    }

    /// Takes the outcome of the last action and decides the next one.
    pub fn on_event(&mut self, e: Event) -> (r: Action)
        requires
            old(self).wf(),
        ensures
            final(self).wf(),
            r == action_of(final(self).phase, final(self).clock.step),
            final(self).grid == old(self).grid,
            final(self).n_agents == old(self).n_agents,
            final(self).n_threads == old(self).n_threads,
            final(self).clock.save_steps@ == old(self).clock.save_steps@,
            (old(self).phase == Phase::Stepping && e == Event::TickDone) ==> {
                &&& final(self).clock.step == old(self).clock.step + 1
                &&& final(self).phase == if old(self).clock.save_steps@.contains(final(self).clock.step) {
                    Phase::Checkpointing
                } else {
                    Phase::Stepping
                }
            },
            !(old(self).phase == Phase::Stepping && e == Event::TickDone) ==> final(self).clock == old(self).clock,
            old(self).phase == Phase::Stepping ==> (e matches Event::TickFailed(err) ==> final(self).phase
                == Phase::Failed(err)),
            (old(self).phase == Phase::Stepping && e == Event::StopRequested) ==> final(self).phase
                == Phase::Finished,
            (old(self).phase == Phase::Checkpointing && e == Event::CheckpointDone) ==> final(self).phase == if old(
                self,
            ).clock.finished() {
                Phase::Finished
            } else {
                Phase::Stepping
            },
            (old(self).phase == Phase::Checkpointing && e == Event::CheckpointFailed) ==> final(self).phase
                == Phase::Failed(SimulationError::Storage),
            !((old(self).phase == Phase::Stepping && (e == Event::TickDone || e is TickFailed || e
                == Event::StopRequested)) || (old(self).phase == Phase::Checkpointing && (e == Event::CheckpointDone
                || e == Event::CheckpointFailed))) ==> final(self).phase == old(self).phase,
    {
        match self.phase {
            Phase::Stepping => {
                match e {
                    Event::TickDone => {
                        proof {
                            let k = self.clock.next_save as int;
                            assert(self.clock.save_steps[k] > self.clock.step);
                        }
                        match self.clock.advance() {
                            Some(_) => {
                                self.phase = Phase::Checkpointing;
                            },
                            None => {},
                        }
                    },
                    Event::TickFailed(err) => {
                        self.phase = Phase::Failed(err);
                    },
                    Event::StopRequested => {
                        self.phase = Phase::Finished;
                    },
                    _ => {},
                }
            },
            Phase::Checkpointing => {
                match e {
                    Event::CheckpointDone => {
                        self.phase = if self.clock.is_finished() {
                            Phase::Finished
                        } else {
                            Phase::Stepping
                        };
                    },
                    Event::CheckpointFailed => {
                        self.phase = Phase::Failed(SimulationError::Storage);
                    },
                    _ => {},
                }
            },
            _ => {},
        }
        self.pending()
    }
}

/// Round-robin assignment of voxels to workers: worker `t` takes, in increasing
/// order, the voxels whose index leaves remainder `t` modulo the number of workers.
pub fn assign_workers(n_voxels: usize, n_threads: usize) -> (r: Vec<Vec<usize>>)
    requires
        n_threads > 0,
    ensures
        r.len() == n_threads,
        forall|t: int, k: usize|
            0 <= t < r.len() ==> (#[trigger] r[t]@.contains(k) <==> (k < n_voxels && k % n_threads == t)),
        forall|t: int, i: int, j: int| 0 <= t < r.len() && 0 <= i < j < r[t]@.len() ==> #[trigger] r[t]@[i] < #[trigger] r[t]@[j],
{
    let mut r: Vec<Vec<usize>> = Vec::new();
    let mut t: usize = 0;
    while t < n_threads
        invariant
            n_threads > 0,
            t <= n_threads,
            r.len() == t,
            forall|s: int, k: usize| 0 <= s < t ==> (#[trigger] r[s]@.contains(k) <==> (k < n_voxels && k % n_threads == s)),
            forall|s: int, i: int, j: int| 0 <= s < t && 0 <= i < j < r[s]@.len() ==> #[trigger] r[s]@[i] < #[trigger] r[s]@[j],
        decreases n_threads - t,
    {
        let mut mine: Vec<usize> = Vec::new();
        let mut k: usize = 0;
        while k < n_voxels
            invariant
                n_threads > 0,
                t < n_threads,
                k <= n_voxels,
                forall|i: int| 0 <= i < mine.len() ==> #[trigger] mine[i] < k,
                forall|i: int, j: int| 0 <= i < j < mine.len() ==> #[trigger] mine[i] < #[trigger] mine[j],
                forall|c: usize| mine@.contains(c) <==> (c < k && c % n_threads == t),
            decreases n_voxels - k,
        {
            if k % n_threads == t {
                let ghost prev = mine@;
                mine.push(k);
                assert forall|c: usize| mine@.contains(c) <==> (c <= k && c % n_threads == t) by {
                    if c != k && mine@.contains(c) {
                        let i = choose|i: int| 0 <= i < mine.len() && mine[i] == c;
                        assert(prev[i] == c);
                    }
                    if c != k && prev.contains(c) {
                        let i = choose|i: int| 0 <= i < prev.len() && prev[i] == c;
                        assert(mine[i] == c);
                    }
                    if c == k {
                        assert(mine[mine.len() - 1] == c);
                    }
                }
            }
            k = k + 1;
        }
        let ghost prev = r@;
        r.push(mine);
        assert forall|s: int, c: usize| 0 <= s < r.len() implies (#[trigger] r[s]@.contains(c) <==> (c < n_voxels
            && c % n_threads == s)) by {
            if s < t {
                assert(r[s] == prev[s]);
            }
        }
        assert forall|s: int, i: int, j: int| 0 <= s < r.len() && 0 <= i < j < r[s]@.len() implies #[trigger] r[s]@[i]
            < #[trigger] r[s]@[j] by {
            if s < t {
                assert(r[s] == prev[s]);
            }
        }
        t = t + 1;
    }
    r
}

} // verus!
