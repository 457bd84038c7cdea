//! Common container interfaces.
use vstd::prelude::*;

verus! {

/// A container that can be released; a disposed container stays usable but
/// reports that it was disposed.
pub trait Disposable {
    /// The container's internal state is consistent (always, unless the
    /// implementer keeps an invariant).
    open spec fn well_formed(&self) -> bool {
        true
    }

    fn dispose(&mut self)
        requires
            old(self).well_formed(),
        ensures
            final(self).well_formed(),
    ;

    fn is_disposed(&self) -> bool;
}

/// A container of items that can be measured, cleared and listed.
pub trait Collection: Disposable {
    type Item;

    /// The number of items held.
    spec fn spec_size(&self) -> nat;

    fn size(&self) -> (r: usize)
        requires
            self.well_formed(),
        ensures
            r == self.spec_size(),
    ;

    fn clear(&mut self)
        requires
            old(self).well_formed(),
        ensures
            final(self).well_formed(),
            final(self).spec_size() == 0,
    ;

    /// The items, cloned, in iteration order.
    fn collect(&self) -> (r: Vec<Self::Item>) where Self::Item: Clone
        requires
            self.well_formed(),
        ensures
            r@.len() == self.spec_size(),
    ;

    fn is_empty(&self) -> (b: bool)
        requires
            self.well_formed(),
        ensures
            b == (self.spec_size() == 0),
    {
        self.size() == 0
    }
}

} // verus!
