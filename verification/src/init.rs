//! The process-wide guard of the native facility's one-time initialization.

use vstd::prelude::*;

verus! {

/// Remembers whether the native facility has been initialized.
///
/// One flag is shared by every registry of the process. Exclusive access to
/// it makes the check-and-set in [`InitFlag::claim`] indivisible: the first
/// claim wins, every later one is told that the work is done.
pub struct InitFlag {
    done: bool,
}

impl InitFlag {
    /// Whether a claim has been made.
    pub closed spec fn is_set(&self) -> bool {
        self.done
    }

    /// A flag on which no claim has been made.
    pub fn new() -> (flag: InitFlag)
        ensures
            !flag.is_set(),
    {
        InitFlag { done: false }
    }

    /// Whether a claim has been made.
    pub fn get(&self) -> (set: bool)
        ensures
            set == self.is_set(),
    {
        self.done
    }

    /// Sets the flag and tells the caller whether it was the first to do so.
    pub fn claim(&mut self) -> (first: bool)
        ensures
            first == !old(self).is_set(),
            final(self).is_set(),
    {
        let first = !self.done;
        self.done = true;
        first
    }

    /// Clears the flag, so that the next claim is a first one again.
    pub fn reset(&mut self)
        ensures
            !final(self).is_set(),
    {
        self.done = false;
    }
}

} // verus!
