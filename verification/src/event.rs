//! Events between processes.

use vstd::prelude::*;

use crate::ids::VmId;

verus! {

/// What an event reports.
#[derive(Copy, Clone, Debug, PartialEq, Eq)]
pub enum EventType {
    /// Nothing yet.
    Unknow,
    /// The process has ended with the exit code.
    ProcessExit((VmId, i8)),
}

/// The value that an event holds. Threads share it behind a lock: one that notifies
/// stores a value, one that waits looks at the value each time it is woken.
pub struct Event {
    last: EventType,
}

/// `e` reports that the process `pid` has ended.
pub open spec fn exit_of(e: EventType, pid: VmId) -> bool {
    e is ProcessExit && e->ProcessExit_0.0 == pid
}

impl Default for Event {
    fn default() -> (res: Self)
        ensures
            res.last() == EventType::Unknow,
    {
        Event { last: EventType::Unknow }
    }
}

impl Event {
    /// The value that was notified last.
    pub closed spec fn last(&self) -> EventType {
        self.last
    }

    /// Stores a value; what was there before is forgotten.
    pub fn notify(&mut self, v: EventType)
        ensures
            final(self).last() == v,
    {
        self.last = v;
    }

    /// Whether a thread that waits for `condition` is done waiting.
    pub fn wait<F: Fn(EventType) -> bool>(&self, condition: F) -> (res: bool)
        requires
            call_requires(condition, (self.last(),)),
        ensures
            call_ensures(condition, (self.last(),), res),
    {
        condition(self.last)
    }

    /// Whether a thread that waits for the end of the process `pid` is done waiting.
    pub fn wait_exit(&self, pid: VmId) -> (res: bool)
        ensures
            res <==> exit_of(self.last(), pid),
    {
        is_exit_of(self.last, pid)
    }
}

/// Whether `e` reports that the process `pid` has ended.
pub fn is_exit_of(e: EventType, pid: VmId) -> (res: bool)
    ensures
        res <==> exit_of(e, pid),
{
    match e {
        EventType::ProcessExit((ended, _)) => ended == pid,
        EventType::Unknow => false,
    }
}

/// A thread that waits for the end of a process is done once that process, and no other, is
/// reported to have ended, whatever its exit code.
pub proof fn law_exit_ends_the_right_wait(ended: VmId, code: i8, awaited: VmId)
    ensures
        exit_of(EventType::ProcessExit((ended, code)), awaited) <==> ended == awaited,
        !exit_of(EventType::Unknow, awaited),
{
}

} // verus!
