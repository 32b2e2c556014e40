//! Identities of simulations and of processes.

use vstd::prelude::*;
use vstd::std_specs::convert::{FromSpec, FromSpecImpl};

verus! {

/// A process of the shared process table.
pub type VmId = u64;

/// A simulated transaction.
pub type TId = u64;

/// One simulation.
#[derive(Copy, Clone, Debug, PartialEq, Eq, Hash, Structural)]
pub struct SimID(pub u64);

/// One process of a simulation. The process that the simulation starts with has
/// number zero.
#[derive(Copy, Clone, Debug, PartialEq, Eq, Hash, Structural)]
pub struct ProcID(pub u64);

impl Default for SimID {
    fn default() -> (res: Self)
        ensures
            res == SimID(0),
    {
        SimID(0)
    }
}

impl From<u64> for SimID {
    fn from(value: u64) -> (res: Self) {
        SimID(value)
    }
}

impl FromSpecImpl<u64> for SimID {
    open spec fn obeys_from_spec() -> bool {
        true
    }

    open spec fn from_spec(value: u64) -> Self {
        SimID(value)
    }
}

impl Default for ProcID {
    fn default() -> (res: Self)
        ensures
            res == ProcID(0),
    {
        ProcID(0)
    }
}

impl From<u64> for ProcID {
    fn from(value: u64) -> (res: Self) {
        ProcID(value)
    }
}

impl FromSpecImpl<u64> for ProcID {
    open spec fn obeys_from_spec() -> bool {
        true
    }

    open spec fn from_spec(value: u64) -> Self {
        ProcID(value)
    }
}

impl From<ProcID> for u64 {
    fn from(value: ProcID) -> (res: Self) {
        value.0
    }
}

impl FromSpecImpl<ProcID> for u64 {
    open spec fn obeys_from_spec() -> bool {
        true
    }

    open spec fn from_spec(value: ProcID) -> Self {
        value.0
    }
}

impl ProcID {
    /// Hands out this number and moves on to the next.
    pub fn next(&mut self) -> (res: ProcID)
        requires
            old(self).0 < u64::MAX,
        ensures
            res == *old(self),
            final(self).0 == old(self).0 + 1,
    {
        let id = *self;
        self.0 = self.0 + 1;
        id
    }
}

/// What a thread is running: which simulation, and which process of it.
#[derive(Copy, Clone, Debug, PartialEq, Eq, Structural)]
pub struct ThreadContext {
    /// The simulation.
    pub sim_id: SimID,
    /// The process.
    pub proc_id: ProcID,
}

impl Default for ThreadContext {
    fn default() -> (res: Self)
        ensures
            res == (ThreadContext { sim_id: SimID(0), proc_id: ProcID(0) }),
    {
        ThreadContext { sim_id: SimID::default(), proc_id: ProcID::default() }
    }
}

/// A number and the process or simulation that it stands for convert into each other.
pub proof fn law_ids_are_numbers(n: u64, id: ProcID)
    ensures
        <ProcID as FromSpec<u64>>::from_spec(n).0 == n,
        <SimID as FromSpec<u64>>::from_spec(n).0 == n,
        <u64 as FromSpec<ProcID>>::from_spec(id) == id.0,
        <u64 as FromSpec<ProcID>>::from_spec(<ProcID as FromSpec<u64>>::from_spec(n)) == n,
{
}

} // verus!
