//! Updating a running minimum or maximum in place.

use vstd::prelude::*;
use vstd::std_specs::cmp::PartialOrdIs;
use vstd::std_specs::cmp::PartialOrdSpec;

verus! {

/// Replaces a value by a candidate that is smaller, or larger, and says
/// whether it did.
pub trait SetMinMax: Sized {
    /// Sets `self` to `v` if `v` is strictly smaller. Returns whether
    /// `self` changed.
    fn setmin(&mut self, v: Self) -> (changed: bool)
        ensures
            *final(self) == (if changed {
                v
            } else {
                *old(self)
            }),
    ;

    /// Sets `self` to `v` if `v` is strictly larger. Returns whether
    /// `self` changed.
    fn setmax(&mut self, v: Self) -> (changed: bool)
        ensures
            *final(self) == (if changed {
                v
            } else {
                *old(self)
            }),
    ;
}

impl<T> SetMinMax for T where T: PartialOrd {
    fn setmin(&mut self, v: T) -> (changed: bool)
        ensures
            T::obeys_partial_cmp_spec() ==> changed == (*old(self)).is_gt(&v),
    {
        if *self > v {
            *self = v;
            true
        } else {
            false
        }
    }

    fn setmax(&mut self, v: T) -> (changed: bool)
        ensures
            T::obeys_partial_cmp_spec() ==> changed == (*old(self)).is_lt(&v),
    {
        if *self < v {
            *self = v;
            true
        } else {
            false
        }
    }
}

} // verus!
