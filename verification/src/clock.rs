use vstd::prelude::*;

verus! {

/// A discrete simulation tick. All time in the simulator is measured in ticks.
pub type Tick = u64;

/// Simulation clock that tracks the current tick.
///
/// The clock only moves when the engine advances it, and never backwards.
#[derive(Debug, Clone)]
pub struct Clock {
    current: Tick,
}

impl View for Clock {
    type V = Tick;

    closed spec fn view(&self) -> Tick {
        self.current
    }
}

impl Clock {
    /// A clock standing at tick 0.
    pub fn new() -> (c: Self)
        ensures
            c@ == 0,
    {
        Self { current: 0 }
    }

    /// The current tick.
    pub fn now(&self) -> (t: Tick)
        ensures
            t == self@,
    {
        self.current
    }

    /// Moves the clock forward to `tick`; the clock must not move backwards.
    pub fn advance_to(&mut self, tick: Tick)
        requires
            tick >= old(self)@,
        ensures
            final(self)@ == tick,
    {
        self.current = tick;
    }
}

impl Default for Clock {
    fn default() -> (c: Self)
        ensures
            c@ == 0,
    {
        Self::new()
    }
}

} // verus!
