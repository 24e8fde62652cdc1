//! Equality and order of numbers.
//!
//! Two numbers are equal when they are written alike: in the same alphabet and
//! with the same digits, leading zeros included. The order is that of the
//! numbers they stand for, so that leading zeros do not count, and holds
//! between numbers of one alphabet only.

use crate::arith::order_of_places;
use crate::digits::Digits;
use std::cmp::Ordering;
use vstd::prelude::*;

verus! {

/// How one number stands to another.
pub open spec fn order_of(a: nat, b: nat) -> Ordering {
    if a < b {
        Ordering::Less
    } else if a == b {
        Ordering::Equal
    } else {
        Ordering::Greater
    }
}

/// Whether two vectors hold the same digits.
fn same_places(a: &Vec<u64>, b: &Vec<u64>) -> (r: bool)
    ensures
        r == (a@ == b@),
{
    if a.len() != b.len() {
        return false;
    }
    let n = a.len();
    let mut i: usize = 0;
    while i < n
        invariant
            n == a@.len(),
            n == b@.len(),
            i <= n,
            forall|j: int| 0 <= j < i ==> a@[j] == b@[j],
        decreases n - i,
    {
        if a[i] != b[i] {
            return false;
        }
        i += 1;
    }
    assert(a@ =~= b@);
    true
}

impl PartialEq for Digits {
    fn eq(&self, other: &Digits) -> (r: bool) {
        self.is_compat(other) && same_places(self.places_ref(), other.places_ref())
    }
}

impl vstd::std_specs::cmp::PartialEqSpecImpl for Digits {
    open spec fn obeys_eq_spec() -> bool {
        true
    }

    open spec fn eq_spec(&self, other: &Digits) -> bool {
        self@ == other@
    }
}

impl PartialOrd for Digits {
    fn partial_cmp(&self, other: &Digits) -> (r: Option<Ordering>) {
        if !self.is_compat(other) {
            return None;
        }
        let sign = order_of_places(self.places_ref(), other.places_ref(), self.radix());
        if sign < 0 {
            Some(Ordering::Less)
        } else if sign == 0 {
            Some(Ordering::Equal)
        } else {
            Some(Ordering::Greater)
        }
    }
}

impl vstd::std_specs::cmp::PartialOrdSpecImpl for Digits {
    open spec fn obeys_partial_cmp_spec() -> bool {
        true
    }

    open spec fn partial_cmp_spec(&self, other: &Digits) -> Option<Ordering> {
        if self@.units == other@.units {
            Some(order_of(self@.value(), other@.value()))
        } else {
            None
        }
    }
}

} // verus!
