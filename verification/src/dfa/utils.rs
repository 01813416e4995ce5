//! A classifier made on the spot from a character class.

use crate::char_class::AnyType;
use crate::dfa::interface::CanAny;
use vstd::prelude::*;

verus! {

/// A classifier that answers with the sub-class of `handle` that fires.
#[derive(Debug, PartialEq, Eq)]
pub struct AdHocCanAny {
    pub handle: AnyType,
}

impl AdHocCanAny {
    pub fn new(handle: AnyType) -> (r: AdHocCanAny)
        ensures
            r.handle == handle,
    {
        AdHocCanAny { handle }
    }
}

impl Clone for AdHocCanAny {
    fn clone(&self) -> (r: AdHocCanAny)
        ensures
            r == *self,
    {
        AdHocCanAny { handle: self.handle.clone() }
    }
}

impl CanAny for AdHocCanAny {
    open spec fn classify(&self, input: char) -> Option<AnyType> {
        self.handle.narrowed(input)
    }

    fn can_any(&self, input: char) -> (r: Option<AnyType>) {
        self.handle.type_match(input)
    }
}

} // verus!
