//! In-place minimum and maximum.

use vstd::prelude::*;

verus! {

/// Values that can be lowered or raised in place to another value.
pub trait SetMinMax: Sized {
    /// The strict order by which two values are compared.
    spec fn below(self, v: Self) -> bool;

    /// Replaces `self` by `v` if `v` is strictly smaller, and says whether it
    /// did.
    fn setmin(&mut self, v: Self) -> (r: bool)
        ensures
            r == v.below(*old(self)),
            *final(self) == if r {
                v
            } else {
                *old(self)
            },
    ;

    /// Replaces `self` by `v` if `v` is strictly larger, and says whether it
    /// did.
    fn setmax(&mut self, v: Self) -> (r: bool)
        ensures
            r == old(self).below(v),
            *final(self) == if r {
                v
            } else {
                *old(self)
            },
    ;
}

impl SetMinMax for i64 {
    open spec fn below(self, v: i64) -> bool {
        self < v
    }

    fn setmin(&mut self, v: i64) -> (r: bool) {
        if *self > v {
            *self = v;
            true
        } else {
            false
        }
    }

    fn setmax(&mut self, v: i64) -> (r: bool) {
        if *self < v {
            *self = v;
            true
        } else {
            false
        }
    }
}

} // verus!
