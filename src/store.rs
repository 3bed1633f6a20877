use vstd::prelude::*;

use std::collections::HashMap;

verus! {

broadcast use vstd::std_specs::hash::group_hash_axioms;

/// The mechanical state of one agent, as the exact bit patterns of its
/// coordinates, so that a stored state is reproduced bit for bit.
#[derive(Clone, Copy, Debug, PartialEq, Eq, Structural)]
pub struct AgentState {
    pub pos_x: u32,
    pub pos_y: u32,
    pub vel_x: u32,
    pub vel_y: u32,
}

/// Snapshots of the whole population, keyed by the step at which they were taken.
pub struct CheckpointStore {
    pub records: HashMap<u64, Vec<AgentState>>,
}

impl CheckpointStore {
    /// The stored snapshots, by step.
    pub open spec fn view(&self) -> Map<u64, Seq<AgentState>> {
        self.records@.map_values(|v: Vec<AgentState>| v@)
    }

    /// An empty store.
    pub fn new() -> (r: CheckpointStore)
        ensures
            r.view() == Map::<u64, Seq<AgentState>>::empty(),
    {
        let r = CheckpointStore { records: HashMap::new() };
        assert(r.view() =~= Map::<u64, Seq<AgentState>>::empty());
        r
    }

    /// Stores a snapshot at `step`; a snapshot already stored there is replaced,
    /// and those at other steps are kept.
    pub fn save(&mut self, step: u64, agents: &Vec<AgentState>)
        ensures
            final(self).view() == old(self).view().insert(step, agents@),
    {
        let copy = copy_states(agents);
        self.records.insert(step, copy);
        assert(final(self).view() =~= old(self).view().insert(step, agents@));
    }

    /// The snapshot stored at `step`, if any.
    pub fn load(&self, step: u64) -> (r: Option<Vec<AgentState>>)
        ensures
            r is Some <==> self.view().contains_key(step),
            r matches Some(v) ==> v@ == self.view()[step],
    {
        match self.records.get(&step) {
            Some(v) => Some(copy_states(v)),
            None => None,
        }
    }

    /// Whether a snapshot is stored at `step`.
    pub fn has(&self, step: u64) -> (r: bool)
        ensures
            r == self.view().contains_key(step),
    {
        self.records.contains_key(&step)
    }
}

/// An element-wise copy of a snapshot.
fn copy_states(agents: &Vec<AgentState>) -> (r: Vec<AgentState>)
    ensures
        r@ == agents@,
{
    let mut r: Vec<AgentState> = Vec::new();
    let mut i: usize = 0;
    while i < agents.len()
        invariant
            i <= agents.len(),
            r@ == agents@.subrange(0, i as int),
        decreases agents.len() - i,
    {
        r.push(agents[i]);
        i = i + 1;
    }
    assert(agents@.subrange(0, i as int) == agents@);
    r
}

/// Checkpoint round trip: after saving a snapshot at `step`, loading at `step`
/// gives that snapshot back exactly, and every other step keeps what it held.
pub proof fn lemma_checkpoint_round_trip(
    before: CheckpointStore,
    after: CheckpointStore,
    step: u64,
    agents: Seq<AgentState>,
)
    requires
        after.view() == before.view().insert(step, agents),
    ensures
        after.view().contains_key(step),
        after.view()[step] == agents,
        forall|t: u64|
            t != step ==> (#[trigger] after.view().contains_key(t) <==> before.view().contains_key(t)),
        forall|t: u64|
            t != step && before.view().contains_key(t) ==> #[trigger] after.view()[t] == before.view()[t],
{
}

} // verus!
