//! The one error of the queue: an element that did not fit.
use vstd::prelude::*;

verus! {

/// An element that could not be stored because the queue was full.
/// It is handed back to the caller unchanged.
#[derive(Debug, Clone, Copy, PartialEq, Eq)]
pub struct CapacityError<T> {
    pub element: T,
}

impl<T> CapacityError<T> {
    /// Wraps the rejected element.
    pub fn new(element: T) -> (r: Self)
        ensures
            r.element == element,
    {
        CapacityError { element }
    }

    /// Gives the rejected element back.
    pub fn element(self) -> (r: T)
        ensures
            r == self.element,
    {
        self.element
    }
}

} // verus!
