use vstd::prelude::*;

verus! {

/// Stable integer handle naming a schedulable thread.
///
/// The scheduler owns thread identifiers; the queue merely references them.
/// A valid identifier lies below the queue's thread capacity and doubles as
/// the thread's index into the preallocated per-thread link storage.
#[derive(Clone, Copy, PartialEq, Eq, Structural, Debug)]
pub struct ThreadId(pub u8);

impl ThreadId {
    /// The thread's index into the per-thread link storage.
    pub open spec fn idx(self) -> int {
        self.0 as int
    }

    pub fn new(id: u8) -> (r: Self)
        ensures
            r == ThreadId(id),
    {
        ThreadId(id)
    }

    /// The identifier as a storage index.
    pub fn index(self) -> (r: usize)
        ensures
            r == self.idx(),
    {
        self.0 as usize
    }
}

/// A priority level: all threads within one level are scheduled round-robin
/// relative to each other. A higher numeric level means a higher priority.
#[derive(Clone, Copy, PartialEq, Eq, Structural, Debug)]
pub struct RunqueueId(pub u8);

impl RunqueueId {
    /// The level's index among the queue's priority levels.
    pub open spec fn idx(self) -> int {
        self.0 as int
    }

    pub fn new(id: u8) -> (r: Self)
        ensures
            r == RunqueueId(id),
    {
        RunqueueId(id)
    }

    /// The level as an index into the per-level lists.
    pub fn index(self) -> (r: usize)
        ensures
            r == self.idx(),
    {
        self.0 as usize
    }
}

} // verus!
