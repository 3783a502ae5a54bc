//! Functions of a caller whose calls are counted.

use vstd::prelude::*;

verus! {

/// A function that a caller has handed over, and how often it has been called since. There is no
/// other way to call it: what holds it can neither look at it nor take it out again.
pub struct Counted<F> {
    function: F,
    count: Ghost<nat>,
}

impl<F> Counted<F> {
    /// The function.
    pub closed spec fn function(&self) -> F {
        self.function
    }

    /// How often it has been called.
    pub closed spec fn count(&self) -> nat {
        self.count@
    }

    /// Takes a function over that has not been called yet.
    pub fn new(function: F) -> (counted: Self)
        ensures
            counted.function() == function,
            counted.count() == 0,
    {
        Counted { function, count: Ghost(0nat) }
    }

    /// Calls a function of one argument, once: the argument is gone then.
    pub fn call<A, S>(&mut self, argument: A) -> (answer: S) where F: FnMut(A) -> S
        requires
            call_requires(old(self).function(), (argument,)),
        ensures
            call_ensures(old(self).function(), (argument,), answer),
            final(self).function() == old(self).function(),
            final(self).count() == old(self).count() + 1,
    {
        self.count = Ghost(self.count@ + 1);
        (self.function)(argument)
    }

    /// Calls a function of two arguments, once: the arguments are gone then.
    pub fn call_with_two<A, B, S>(&mut self, first: A, second: B) -> (answer: S) where
        F: FnMut(A, B) -> S,

        requires
            call_requires(old(self).function(), (first, second)),
        ensures
            call_ensures(old(self).function(), (first, second), answer),
            final(self).function() == old(self).function(),
            final(self).count() == old(self).count() + 1,
    {
        self.count = Ghost(self.count@ + 1);
        (self.function)(first, second)
    }
}

} // verus!
