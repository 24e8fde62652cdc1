//! The digits of a number in the opposite order.

use crate::arith::reversed;
use crate::digits::Digits;
use vstd::prelude::*;

verus! {

/// A value whose parts can be put in the opposite order, in place.
pub trait Reverse {
    /// This value holds the parts of `before` in the opposite order.
    spec fn is_reverse_of(&self, before: &Self) -> bool;

    fn reverse(&mut self)
        ensures
            final(self).is_reverse_of(old(self)),
    ;
}

impl Reverse for Digits {
    /// The same alphabet and the digits in the opposite order, as they stand:
    /// `0008` gives `8000`.
    open spec fn is_reverse_of(&self, before: &Digits) -> bool {
        &&& self.wf()
        &&& self@.units == before@.units
        &&& self@.places == before@.places.reverse()
    }

    fn reverse(&mut self) {
        let turned = reversed(self.places_ref());
        proof {
            assert forall|i: int| 0 <= i < turned@.len() implies (#[trigger] turned@[i])
                < self@.base() by {
                assert(turned@[i] == self@.places[self@.places.len() - 1 - i]);
            }
        }
        self.set_places(turned);
    }
}

} // verus!
