//! Registry of long-running background tasks.
//!
//! The consensus core tracks every task it spawns so that a single shutdown
//! entry point can request cancellation of all of them. Cancellation here is
//! a signal recorded per task; the runtime that actually drives the tasks
//! observes it and aborts them.

use vstd::prelude::*;

verus! {

/// Tracks which spawned tasks are still runnable.
pub struct TaskRegistry {
    /// One flag per registered task: `true` while the task is runnable.
    pub tasks: Vec<bool>,
}

impl TaskRegistry {
    /// An empty registry.
    pub fn new() -> (r: TaskRegistry)
        ensures
            r.tasks@.len() == 0,
    {
        TaskRegistry { tasks: Vec::new() }
    }

    /// Registers a newly spawned task and returns its handle index.
    pub fn register(&mut self) -> (r: usize)
        ensures
            final(self).tasks@ == old(self).tasks@.push(true),
            r == old(self).tasks@.len(),
    {
        let r = self.tasks.len();
        self.tasks.push(true);
        r
    }

    /// Returns the number of registered tasks.
    pub fn len(&self) -> (r: usize)
        ensures
            r == self.tasks@.len(),
    {
        self.tasks.len()
    }

    /// Whether any registered task is still runnable.
    pub fn any_runnable(&self) -> (r: bool)
        ensures
            r == exists|i: int| 0 <= i < self.tasks@.len() && self.tasks@[i],
    {
        let n = self.tasks.len();
        let mut i: usize = 0;
        while i < n
            invariant
                0 <= i <= n,
                n == self.tasks@.len(),
                forall|j: int| 0 <= j < i ==> !self.tasks@[j],
            decreases n - i,
        {
            if self.tasks[i] {
                return true;
            }
            i += 1;
        }
        false
    }

    /// Requests cancellation of every registered task: afterwards no task is
    /// runnable, and the set of registered tasks is unchanged.
    pub fn cancel_all(&mut self)
        ensures
            final(self).tasks@.len() == old(self).tasks@.len(),
            forall|i: int| 0 <= i < final(self).tasks@.len() ==> !final(self).tasks@[i],
    {
        let n = self.tasks.len();
        let mut i: usize = 0;
        while i < n
            invariant
                0 <= i <= n,
                n == self.tasks@.len(),
                self.tasks@.len() == old(self).tasks@.len(),
                forall|j: int| 0 <= j < i ==> !self.tasks@[j],
            decreases n - i,
        {
            self.tasks[i] = false;
            i += 1;
        }
    }
}

} // verus!
