//! The alphabet that a number is written in, as `base_custom` keeps it.
//!
//! Nothing in this file is proved: each item states what the crate
//! `base_custom` does, and the rest of the library is verified against these
//! statements.
//!
//! An alphabet keeps its units to itself, so what its constructors see to
//! holds of every alphabet: there are 1 to 255 units, all different. Its
//! field `base` is public, and anyone may write to it. So the field has a
//! name of its own here, and only an alphabet that is [intact](alphabet_intact)
//! is known to hold the number of its units there.

use base_custom::BaseCustom;
use vstd::prelude::*;

verus! {

#[verifier::external_type_specification]
#[verifier::external_body]
#[verifier::reject_recursive_types(T)]
pub struct ExBaseCustom<T>(base_custom::BaseCustom<T>);

/// The units of an alphabet, each at the index that is its place value.
pub uninterp spec fn alphabet_units(m: BaseCustom<char>) -> Seq<char>;

/// What the public field `base` of an alphabet holds.
pub uninterp spec fn alphabet_field(m: BaseCustom<char>) -> nat;

/// What holds of the units of every alphabet: there are 1 to 255 of them, and
/// no two are the same.
pub open spec fn units_kept(units: Seq<char>) -> bool {
    1 <= units.len() <= 255 && units.no_duplicates()
}

/// The alphabet is as its constructors leave it: its field `base` holds the
/// number of its units.
pub open spec fn alphabet_intact(m: BaseCustom<char>) -> bool {
    alphabet_field(m) == alphabet_units(m).len() && units_kept(alphabet_units(m))
}

/// `BaseCustom::<char>::new`: an alphabet of the given characters in the given
/// order, with their number in its field. It is called here only with two to
/// 255 characters that are all different, so nothing is dropped as a repeat
/// and the constructor's limits are met.
#[verifier::external_body]
pub(crate) fn alphabet_of(chars: Vec<char>) -> (m: BaseCustom<char>)
    requires
        2 <= chars@.len() <= 255,
        chars@.no_duplicates(),
    ensures
        alphabet_units(m) == chars@,
        alphabet_field(m) == chars@.len(),
{
    BaseCustom::<char>::new(chars)
}

/// The field `base` of `BaseCustom`, whatever it holds.
#[verifier::external_body]
pub(crate) fn alphabet_base(m: &BaseCustom<char>) -> (b: u64)
    ensures
        b == alphabet_field(*m),
{
    m.base
}

/// `BaseCustom::<char>::char`: the unit with the given place value, and `None`
/// from the number of units on. The call reads the units only, of which
/// there are 1 to 255, all different, in every alphabet.
#[verifier::external_body]
pub(crate) fn unit_at(m: &BaseCustom<char>, place: usize) -> (r: Option<char>)
    ensures
        match r {
            Some(unit) => {
                &&& place < alphabet_units(*m).len()
                &&& alphabet_units(*m)[place as int] == unit
                &&& units_kept(alphabet_units(*m))
            },
            None => place >= alphabet_units(*m).len() && units_kept(alphabet_units(*m)),
        },
{
    m.char(place)
}

/// `BaseCustom::<char>::position`: the place value of a unit, which is the one
/// index that holds it since the alphabet keeps no unit twice, and `None` for a
/// character that is no unit.
#[verifier::external_body]
pub(crate) fn place_of(m: &BaseCustom<char>, unit: char) -> (r: Option<usize>)
    ensures
        match r {
            Some(place) => {
                &&& place < alphabet_units(*m).len()
                &&& alphabet_units(*m)[place as int] == unit
                &&& alphabet_units(*m).no_duplicates()
            },
            None => !alphabet_units(*m).contains(unit),
        },
{
    m.position(unit)
}

/// `BaseCustom::<char>::gen`: the number written in the alphabet, most
/// significant unit first and without leading zero units. The call divides by
/// the field, so it is made for an intact alphabet only. With a single unit
/// only zero can be written, and the call is left out for any other number.
#[verifier::external_body]
pub(crate) fn written(m: &BaseCustom<char>, number: u64) -> (text: String)
    requires
        alphabet_intact(*m),
        alphabet_units(*m).len() >= 2 || number == 0,
    ensures
        text@ == crate::places::spelled(
            alphabet_units(*m),
            crate::places::canonical(alphabet_units(*m).len(), number as nat),
        ),
{
    m.gen(number)
}

/// `PartialEq` of `BaseCustom<char>`: two alphabets are equal when they hold
/// the same units in the same order and the same number in their fields.
#[verifier::external_body]
pub(crate) fn same_alphabet(a: &BaseCustom<char>, b: &BaseCustom<char>) -> (r: bool)
    ensures
        r == {
            &&& alphabet_units(*a) == alphabet_units(*b)
            &&& alphabet_field(*a) == alphabet_field(*b)
        },
{
    a == b
}

/// `Clone` of `BaseCustom<char>`: the copy holds the same units and the same
/// number in its field.
#[verifier::external_body]
pub(crate) fn alphabet_copy(m: &BaseCustom<char>) -> (r: BaseCustom<char>)
    ensures
        alphabet_units(r) == alphabet_units(*m),
        alphabet_field(r) == alphabet_field(*m),
{
    m.clone()
}

/// `String::push`: the character is appended.
pub assume_specification[ String::push ](text: &mut String, c: char)
    ensures
        final(text)@ == old(text)@.push(c),
;

} // verus!
