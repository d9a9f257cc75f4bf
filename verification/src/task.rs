//! Tasks as the library sees them.
//!
//! The library never awaits. A task holds its work as a plain value, decides
//! whether there is still an outcome to come, and hands the work out to
//! whoever can run it.
use vstd::prelude::*;

verus! {

/// Work whose outcome is passed through a function before it is delivered.
pub struct Mapped<W, M> {
    pub work: W,
    pub map: M,
}

/// A task with a single outcome: it yields once and is then complete.
pub struct SingleTask<W> {
    task: Option<W>,
}

impl<W> SingleTask<W> {
    /// The work that has not been handed out yet, if any.
    pub closed spec fn pending(&self) -> Option<W> {
        self.task
    }

    /// A task that will yield the outcome of `work`.
    pub fn new(work: W) -> (task: Self)
        ensures
            task.pending() == Some(work),
    {
        SingleTask { task: Some(work) }
    }

    /// A task that has yielded already.
    pub fn completed() -> (task: Self)
        ensures
            task.pending() is None,
    {
        SingleTask { task: None }
    }

    /// Whether the task has yielded already.
    pub fn is_complete(&self) -> (done: bool)
        ensures
            done == (self.pending() is None),
    {
        self.task.is_none()
    }

    /// Hands out the pending work on the first call and nothing afterwards:
    /// the caller runs it to obtain the one outcome of the task.
    pub fn next(&mut self) -> (work: Option<W>)
        ensures
            work == old(self).pending(),
            final(self).pending() is None,
    {
        self.task.take()
    }

    /// The same task with `map` applied to its outcome. A task that has
    /// yielded stays complete; one that has not still yields exactly once.
    pub fn map_msg<M>(self, map: M) -> (mapped: SingleTask<Mapped<W, M>>)
        ensures
            mapped.pending() == match self.pending() {
                Some(work) => Some(Mapped { work, map }),
                None => None::<Mapped<W, M>>,
            },
    {
        match self.task {
            Some(work) => SingleTask { task: Some(Mapped { work, map }) },
            None => SingleTask { task: None },
        }
    }
}

} // verus!
