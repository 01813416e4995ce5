//! A source of fresh state ids.

use vstd::prelude::*;

verus! {

/// Counts upward from a starting value; the field is the next id to hand out.
#[derive(Debug, Clone, Copy, PartialEq, Eq, Structural)]
pub struct Counter(pub usize);

impl Counter {
    pub fn new() -> (r: Counter)
        ensures
            r == Counter(0),
    {
        Counter(0)
    }

    pub fn init(init: usize) -> (r: Counter)
        ensures
            r == Counter(init),
    {
        Counter(init)
    }

    /// Hands out the current id and moves to the one after it. Once the
    /// largest id has been reached there is none left to hand out.
    pub fn next(&mut self) -> (r: Option<usize>)
        ensures
            old(self).0 < usize::MAX ==> r == Some(old(self).0) && final(self).0 == old(self).0 + 1,
            old(self).0 == usize::MAX ==> r is None && *final(self) == *old(self),
    {
        if self.0 < usize::MAX {
            let d: usize = self.0;
            self.0 = d + 1;
            Some(d)
        } else {
            None
        }
    }
}

} // verus!
