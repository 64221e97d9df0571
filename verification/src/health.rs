use vstd::prelude::*;

verus! {

/// The liveness flag that the health endpoint reports and an operator can flip.
pub struct Health {
    healthy: bool,
}

impl Health {
    /// The flag as a plain value.
    pub closed spec fn view(&self) -> bool {
        self.healthy
    }

    /// A fresh flag reports healthy.
    pub fn new() -> (health: Health)
        ensures
            health@,
    {
        Health { healthy: true }
    }

    /// Reads the flag.
    pub fn get(&self) -> (healthy: bool)
        ensures
            healthy == self@,
    {
        self.healthy
    }

    /// Overwrites the flag.
    pub fn set(&mut self, val: bool)
        ensures
            final(self)@ == val,
    {
        self.healthy = val;
    }
}

} // verus!
