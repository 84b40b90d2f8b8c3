use vstd::prelude::*;

verus! {

/// The game score: a non-negative counter that only ever grows. It is
/// incremented by the value of every merge result and of every spawned tile,
/// and reset only by starting a new game (which builds a fresh `Score`).
pub struct Score {
    pub value: u64,
}

impl Score {
    pub fn new() -> (s: Score)
        ensures
            s.value == 0,
    {
        Score { value: 0 }
    }

    pub fn inc(&mut self, value: u64)
        requires
            old(self).value + value <= u64::MAX,
        ensures
            final(self).value == old(self).value + value,
    {
        self.value = self.value + value;
    }

    pub fn get(&self) -> (v: u64)
        ensures
            v == self.value,
    {
        self.value
    }
}

} // verus!
