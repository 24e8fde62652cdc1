//! Taking from and putting at the front of a vector, as `array_tool` does it.
//!
//! Nothing in this file is proved: each item states what the trait
//! `array_tool::vec::Shift` does on a `Vec`.

use array_tool::vec::Shift;
use vstd::prelude::*;

verus! {

/// `Shift::shift`: the first item is taken out and returned; an empty vector
/// stays empty and gives `None`.
#[verifier::external_body]
pub(crate) fn shift(v: &mut Vec<u64>) -> (r: Option<u64>)
    ensures
        old(v)@.len() == 0 ==> r is None && final(v)@ == old(v)@,
        old(v)@.len() > 0 ==> r == Some(old(v)@[0]) && final(v)@ == old(v)@.drop_first(),
{
    v.shift()
}

/// `Shift::unshift`: the item is put before all others.
#[verifier::external_body]
pub(crate) fn unshift(v: &mut Vec<u64>, item: u64)
    ensures
        final(v)@ == seq![item] + old(v)@,
{
    v.unshift(item)
}

} // verus!
