use vstd::prelude::*;

verus! {

/// A minimal game that can be started exactly once.
pub struct Game {
    started: bool,
}

impl Game {
    pub closed spec fn spec_started(&self) -> bool {
        self.started
    }

    pub fn new() -> (r: Game)
        ensures
            !r.spec_started(),
    {
        Game { started: false }
    }

    /// Starts the game; starting it a second time is a caller error.
    pub fn start(&mut self)
        requires
            !old(self).spec_started(),
        ensures
            final(self).spec_started(),
    {
        self.started = true;
    }

    pub fn is_started(&self) -> (r: bool)
        ensures
            r == self.spec_started(),
    {
        self.started
    }
}

} // verus!
