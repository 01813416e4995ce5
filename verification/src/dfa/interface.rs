//! What a state's classifier has to offer.

use crate::char_class::AnyType;
use vstd::prelude::*;

verus! {

/// A classifier attached to a state: it tells under which class, if any, a
/// character leaves the state when no literal transition takes it.
pub trait CanAny {
    /// The class under which `input` is looked up.
    spec fn classify(&self, input: char) -> Option<AnyType>;

    fn can_any(&self, input: char) -> (r: Option<AnyType>)
        ensures
            r == self.classify(input),
    ;
}

impl CanAny for AnyType {
    open spec fn classify(&self, input: char) -> Option<AnyType> {
        self.narrowed(input)
    }

    fn can_any(&self, input: char) -> (r: Option<AnyType>) {
        self.type_match(input)
    }
}

} // verus!
