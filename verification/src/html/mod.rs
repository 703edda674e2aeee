//! HTML documents.
pub mod dsl;
pub mod element;

use vstd::prelude::*;

verus! {

/// An HTML document body.
#[derive(Debug, Clone, PartialEq, Eq, PartialOrd, Ord)]
pub struct Html<T>(pub T);

impl<T> Html<T> {
    /// The wrapped value.
    pub fn into_inner(self) -> (r: T)
        ensures
            r == self.0,
    {
        self.0
    }
}

} // verus!
