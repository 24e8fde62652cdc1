//! The alphabets of the common bases.

use crate::alphabet::{alphabet_intact, alphabet_of, alphabet_units};
use crate::digits::Digits;
use base_custom::BaseCustom;
use vstd::prelude::*;

verus! {

/// The units of the binary alphabet.
pub open spec fn binary_units() -> Seq<char> {
    seq!['0', '1']
}

/// The units of the octal alphabet.
pub open spec fn octal_units() -> Seq<char> {
    seq!['0', '1', '2', '3', '4', '5', '6', '7']
}

/// The units of the decimal alphabet.
pub open spec fn decimal_units() -> Seq<char> {
    seq!['0', '1', '2', '3', '4', '5', '6', '7', '8', '9']
}

/// The units of the hexadecimal alphabet with capital letters.
pub open spec fn hex_units() -> Seq<char> {
    seq!['0', '1', '2', '3', '4', '5', '6', '7', '8', '9', 'A', 'B', 'C', 'D', 'E', 'F']
}

/// The units of the hexadecimal alphabet with small letters.
pub open spec fn hexl_units() -> Seq<char> {
    seq!['0', '1', '2', '3', '4', '5', '6', '7', '8', '9', 'a', 'b', 'c', 'd', 'e', 'f']
}

/// The binary alphabet `01`.
pub fn binary_base() -> (m: BaseCustom<char>)
    ensures
        alphabet_intact(m),
        alphabet_units(m) == binary_units(),
{
    let chars: Vec<char> = vec!['0', '1'];
    assert(chars@ =~= binary_units());
    alphabet_of(chars)
}

/// The octal alphabet `01234567`.
pub fn octal_base() -> (m: BaseCustom<char>)
    ensures
        alphabet_intact(m),
        alphabet_units(m) == octal_units(),
{
    let chars: Vec<char> = vec!['0', '1', '2', '3', '4', '5', '6', '7'];
    assert(chars@ =~= octal_units());
    alphabet_of(chars)
}

/// The decimal alphabet `0123456789`.
pub fn decimal_base() -> (m: BaseCustom<char>)
    ensures
        alphabet_intact(m),
        alphabet_units(m) == decimal_units(),
{
    let chars: Vec<char> = vec!['0', '1', '2', '3', '4', '5', '6', '7', '8', '9'];
    assert(chars@ =~= decimal_units());
    alphabet_of(chars)
}

/// The hexadecimal alphabet `0123456789ABCDEF`.
pub fn hex_base() -> (m: BaseCustom<char>)
    ensures
        alphabet_intact(m),
        alphabet_units(m) == hex_units(),
{
    let chars: Vec<char> = vec![
        '0',
        '1',
        '2',
        '3',
        '4',
        '5',
        '6',
        '7',
        '8',
        '9',
        'A',
        'B',
        'C',
        'D',
        'E',
        'F',
    ];
    assert(chars@ =~= hex_units());
    alphabet_of(chars)
}

/// The hexadecimal alphabet `0123456789abcdef`.
pub fn hexl_base() -> (m: BaseCustom<char>)
    ensures
        alphabet_intact(m),
        alphabet_units(m) == hexl_units(),
{
    let chars: Vec<char> = vec![
        '0',
        '1',
        '2',
        '3',
        '4',
        '5',
        '6',
        '7',
        '8',
        '9',
        'a',
        'b',
        'c',
        'd',
        'e',
        'f',
    ];
    assert(chars@ =~= hexl_units());
    alphabet_of(chars)
}

/// A number that can be written in the alphabets of the common bases.
pub trait Radix: Sized {
    /// `r` is this number written in the alphabet of the given units.
    spec fn written_in(&self, units: Seq<char>, r: &Self) -> bool;

    /// This number in binary.
    fn binary(&self) -> (r: Self)
        ensures
            self.written_in(binary_units(), &r),
    ;

    /// This number in octal.
    fn octal(&self) -> (r: Self)
        ensures
            self.written_in(octal_units(), &r),
    ;

    /// This number in decimal.
    fn decimal(&self) -> (r: Self)
        ensures
            self.written_in(decimal_units(), &r),
    ;

    /// This number in hexadecimal with capital letters.
    fn hex(&self) -> (r: Self)
        ensures
            self.written_in(hex_units(), &r),
    ;

    /// This number in hexadecimal with small letters.
    fn hexl(&self) -> (r: Self)
        ensures
            self.written_in(hexl_units(), &r),
    ;
}

impl Radix for Digits {
    /// The number stays as it is in its own alphabet, and has the digits of
    /// its value without leading zeros in any other.
    open spec fn written_in(&self, units: Seq<char>, r: &Digits) -> bool {
        r.wf() && r@ == self@.rebased(units)
    }

    fn binary(&self) -> (r: Digits) {
        Digits::from((binary_base(), self.clone()))
    }

    fn octal(&self) -> (r: Digits) {
        Digits::from((octal_base(), self.clone()))
    }

    fn decimal(&self) -> (r: Digits) {
        Digits::from((decimal_base(), self.clone()))
    }

    fn hex(&self) -> (r: Digits) {
        Digits::from((hex_base(), self.clone()))
    }

    fn hexl(&self) -> (r: Digits) {
        Digits::from((hexl_base(), self.clone()))
    }
}

impl Default for Digits {
    /// Zero in the decimal alphabet.
    fn default() -> (r: Digits)
        ensures
            r.wf(),
            r@.units == decimal_units(),
            r@.places == seq![0u64],
    {
        Digits::new_zero(decimal_base())
    }
}

} // verus!
