//! Callbacks that report progress, with the number of their calls.
use vstd::prelude::*;

verus! {

/// A callback and how often it was called.
pub struct Progress<F> {
    callback: F,
    count: Ghost<nat>,
}

impl<F> Progress<F> {
    /// The number of calls.
    pub closed spec fn calls(self) -> nat {
        self.count@
    }

    pub closed spec fn inner(self) -> F {
        self.callback
    }

    /// A callback that was not called yet.
    pub fn new(callback: F) -> (r: Self)
        ensures
            r.calls() == 0,
            r.inner() == callback,
    {
        Progress { callback, count: Ghost(0) }
    }
}

impl<F: FnMut()> Progress<F> {
    /// Calls back once.
    pub fn tick(&mut self)
        requires
            old(self).inner().requires(()),
        ensures
            final(self).inner().requires(()),
            final(self).calls() == old(self).calls() + 1,
    {
        (self.callback)();
        proof {
            self.count@ = self.count@ + 1;
        }
    }
}

impl<F: FnMut(usize)> Progress<F> {
    /// Calls back once, for one step.
    pub fn advance(&mut self)
        requires
            old(self).inner().requires((1usize,)),
        ensures
            final(self).inner().requires((1usize,)),
            final(self).calls() == old(self).calls() + 1,
    {
        (self.callback)(1);
        proof {
            self.count@ = self.count@ + 1;
        }
    }
}

} // verus!
