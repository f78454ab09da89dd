//! Small helpers.
use vstd::prelude::*;

verus! {

/// Holds a function to run once, when the value is released.
pub struct FnRelease<F: FnOnce()>(pub Option<F>);

impl<F: FnOnce()> FnRelease<F> {
    pub fn new(f: F) -> (r: Self)
        ensures
            r.0 == Some(f),
    {
        FnRelease(Some(f))
    }

    /// Releases the value, running the function.
    pub fn release(self)
        requires
            self.0 matches Some(f) ==> call_requires(f, ()),
        ensures
            self.0 matches Some(f) ==> call_ensures(f, (), ()),
    {
        match self.0 {
            Some(f) => f(),
            None => {},
        }
    }
}

} // verus!
