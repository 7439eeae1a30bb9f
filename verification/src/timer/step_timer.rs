use vstd::prelude::*;

use crate::timer::Timer;

verus! {

/// A value paired with the step after which it is due.
pub struct StepTimer<T: Timer, V> {
    pub step: T,
    pub val: V,
}

impl<T: Timer, V> StepTimer<T, V> {
    pub fn new(val: V, step: T) -> (r: Self)
        ensures
            r.val == val,
            r.step == step,
    {
        StepTimer { val, step }
    }
}

impl<T: Timer, V> Timer for StepTimer<T, V> {
    open spec fn when_mut_keeps(&self) -> bool {
        true
    }

    fn when(&self) -> u64 {
        self.step.when()
    }
}

} // verus!
