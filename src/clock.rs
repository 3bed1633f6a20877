use vstd::prelude::*;

use crate::error::SimulationError;

verus! {

/// Save points, as step numbers, are strictly increasing and come after the start.
pub open spec fn valid_save_steps(s: Seq<u64>) -> bool {
    &&& forall|i: int, j: int| 0 <= i < j < s.len() ==> s[i] < s[j]
    &&& forall|i: int| 0 <= i < s.len() ==> s[i] > 0
}

/// The simulation clock in whole steps of `dt`, with the save points still ahead.
pub struct Clock {
    pub step: u64,
    pub save_steps: Vec<u64>,
    pub next_save: usize,
}

impl Clock {
    /// The save points before `next_save` lie at or behind the current step, the
    /// others strictly ahead of it.
    pub open spec fn wf(&self) -> bool {
        &&& valid_save_steps(self.save_steps@)
        &&& self.next_save <= self.save_steps.len()
        &&& forall|i: int| 0 <= i < self.next_save ==> self.save_steps[i] <= self.step
        &&& forall|i: int| self.next_save <= i < self.save_steps.len() ==> self.save_steps[i] > self.step
    }

    /// All save points have been passed.
    pub open spec fn finished(&self) -> bool {
        self.next_save == self.save_steps.len()
    }

    /// A clock at step zero, refusing save points that are not strictly
    /// increasing or that lie at the start.
    pub fn new(save_steps: Vec<u64>) -> (r: Result<Clock, SimulationError>)
        ensures
            r is Ok <==> valid_save_steps(save_steps@),
            r matches Ok(c) ==> c.wf() && c.step == 0 && c.save_steps@ == save_steps@ && c.next_save == 0,
            r matches Err(e) ==> e == SimulationError::Configuration,
    {
        let mut i: usize = 0;
        while i < save_steps.len()
            invariant
                i <= save_steps.len(),
                forall|a: int, b: int| 0 <= a < b < i ==> save_steps[a] < save_steps[b],
                forall|a: int| 0 <= a < i ==> save_steps[a] > 0,
            decreases save_steps.len() - i,
        {
            if save_steps[i] == 0 || (i > 0 && save_steps[i - 1] >= save_steps[i]) {
                return Err(SimulationError::Configuration);
            }
            i = i + 1;
        }
        Ok(Clock { step: 0, save_steps, next_save: 0 })
    }

    /// Whether every save point has been passed.
    pub fn is_finished(&self) -> (r: bool)
        ensures
            r == self.finished(),
    {
        self.next_save == self.save_steps.len()
    }

    /// Advances one step. Returns the step when it is a save point, which is then
    /// consumed.
    pub fn advance(&mut self) -> (r: Option<u64>)
        requires
            old(self).wf(),
            old(self).step < u64::MAX,
        ensures
            final(self).wf(),
            final(self).step == old(self).step + 1,
            final(self).save_steps@ == old(self).save_steps@,
            r is Some <==> old(self).save_steps@.contains(final(self).step),
            r matches Some(s) ==> s == final(self).step,
            final(self).next_save == old(self).next_save + (if r is Some { 1int } else { 0int }),
    {
        self.step = self.step + 1;
        if self.next_save < self.save_steps.len() && self.save_steps[self.next_save] == self.step {
            self.next_save = self.next_save + 1;
            Some(self.step)
        } else {
            proof {
                if self.save_steps@.contains(self.step) {
                    let i = choose|i: int| 0 <= i < self.save_steps.len() && self.save_steps[i] == self.step;
                    if i > self.next_save {
                        assert(self.save_steps[self.next_save as int] < self.save_steps[i]);
                    }
                }
            }
            None
        }
    }
}

} // verus!
