//! The one capability an `IntervalMap` requires of its values: an
//! executable equality test that agrees with mathematical equality.

use vstd::prelude::*;

verus! {

/// Executable equality on values, agreeing with spec equality.
pub trait ValEq: Sized {
    fn eq_val(&self, other: &Self) -> (r: bool)
        ensures
            r <==> (*self == *other),
    ;
}

impl ValEq for char {
    fn eq_val(&self, other: &Self) -> (r: bool) {
        *self == *other
    }
}

impl ValEq for i32 {
    fn eq_val(&self, other: &Self) -> (r: bool) {
        *self == *other
    }
}

} // verus!
