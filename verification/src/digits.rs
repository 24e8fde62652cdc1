//! The number type: a string of digits over an alphabet.

use crate::alphabet::{
    alphabet_base, alphabet_copy, alphabet_intact, alphabet_units, place_of, same_alphabet,
    unit_at,
};
use crate::convert::Into;
use crate::places::{all_units, in_range, lemma_value_zero, read, spelled, value, zeros};
use base_custom::BaseCustom;
use vstd::prelude::*;

verus! {

/// A number written in an alphabet: its digits in the order in which they are
/// written, most significant first, each digit the place value of a unit.
#[derive(Debug)]
pub struct Digits {
    mapping: BaseCustom<char>,
    places: Vec<u64>,
}

/// What a [`Digits`] value is: the units of its alphabet and its string of
/// places, most significant first.
#[verifier::ext_equal]
pub struct DigitsView {
    pub units: Seq<char>,
    pub places: Seq<u64>,
}

impl View for Digits {
    type V = DigitsView;

    closed spec fn view(&self) -> DigitsView {
        DigitsView { units: alphabet_units(self.mapping), places: self.places@ }
    }
}

impl DigitsView {
    /// The size of the alphabet.
    pub open spec fn base(self) -> nat {
        self.units.len()
    }

    /// The number that the digits stand for.
    pub open spec fn value(self) -> nat {
        value(self.base(), self.places)
    }

    /// The text that the digits spell.
    pub open spec fn text(self) -> Seq<char> {
        spelled(self.units, self.places)
    }

    /// There is at least one digit, every digit is a place value of the
    /// alphabet, and the alphabet has between 1 and 255 units.
    pub open spec fn wf(self) -> bool {
        &&& 1 <= self.units.len() <= 255
        &&& self.places.len() >= 1
        &&& in_range(self.base(), self.places)
    }
}

impl Digits {
    /// The alphabet of this number is intact: its field holds the number of
    /// its units.
    pub closed spec fn intact(&self) -> bool {
        alphabet_intact(self.mapping)
    }

    /// The value is well formed, see [`DigitsView::wf`], and its alphabet is
    /// intact. Every value of the type is so.
    #[verifier::type_invariant]
    pub open spec fn wf(&self) -> bool {
        self@.wf() && self.intact()
    }

    /// The digits of this number, most significant first.
    pub(crate) fn places_ref(&self) -> (r: &Vec<u64>)
        ensures
            r@ == self@.places,
            self.wf(),
    {
        proof {
            use_type_invariant(self);
        }
        &self.places
    }

    /// The size of the alphabet, as the digits are held.
    pub(crate) fn radix(&self) -> (r: u64)
        ensures
            r == self@.base(),
            1 <= r <= 255,
    {
        proof {
            use_type_invariant(self);
        }
        alphabet_base(&self.mapping)
    }

    /// The number with the given digits in the alphabet of this number.
    pub(crate) fn with_places(&self, places: Vec<u64>) -> (r: Digits)
        requires
            places@.len() >= 1,
            in_range(self@.base(), places@),
        ensures
            r.wf(),
            r@.units == self@.units,
            r@.places == places@,
    {
        proof {
            use_type_invariant(self);
        }
        Digits { mapping: alphabet_copy(&self.mapping), places }
    }

    /// Gives this number the given digits.
    pub(crate) fn set_places(&mut self, places: Vec<u64>)
        requires
            places@.len() >= 1,
            in_range(old(self)@.base(), places@),
        ensures
            final(self).wf(),
            final(self)@.units == old(self)@.units,
            final(self)@.places == places@,
    {
        proof {
            use_type_invariant(&*self);
        }
        self.places = places;
    }

    /// A copy of the alphabet of this number.
    pub fn mapping(&self) -> (m: BaseCustom<char>)
        ensures
            alphabet_intact(m),
            alphabet_units(m) == self@.units,
    {
        proof {
            use_type_invariant(self);
        }
        alphabet_copy(&self.mapping)
    }

    /// The number of units of an alphabet, or `None` where the alphabet is
    /// not intact: its field was written to and no longer holds that number.
    pub fn alphabet_size(mapping: &BaseCustom<char>) -> (r: Option<usize>)
        ensures
            r is Some <==> alphabet_intact(*mapping),
            r matches Some(n) ==> n == alphabet_units(*mapping).len() && 1 <= n <= 255,
    {
        let field = alphabet_base(mapping);
        let size: usize = if field <= 255 {
            field as usize
        } else {
            255
        };
        let above = unit_at(mapping, size);
        if field < 1 || field > 255 || above.is_some() {
            return None;
        }
        if unit_at(mapping, size - 1).is_none() {
            return None;
        }
        Some(size)
    }

    /// The number whose digits are the units of the text, or `None` where a
    /// character of the text is no unit of the alphabet or the alphabet is not
    /// intact. The empty text gives zero.
    pub fn try_new(mapping: BaseCustom<char>, number: &str) -> (r: Option<Digits>)
        ensures
            r is Some <==> alphabet_intact(mapping) && all_units(
                alphabet_units(mapping),
                number@,
            ),
            r matches Some(d) ==> {
                &&& d.wf()
                &&& d@.units == alphabet_units(mapping)
                &&& d@.places == read(alphabet_units(mapping), number@)
            },
    {
        let ghost units = alphabet_units(mapping);
        if Digits::alphabet_size(&mapping).is_none() {
            return None;
        }
        let mut places: Vec<u64> = Vec::new();
        let mut known = true;
        for c in it: number.chars()
            invariant
                units == alphabet_units(mapping),
                it.seq() == number@,
                known ==> places@.len() == it.index(),
                known ==> forall|j: int|
                    0 <= j < places@.len() ==> (#[trigger] places@[j]) < units.len()
                        && units.index_of(number@[j]) == places@[j],
                known ==> forall|j: int| 0 <= j < it.index() ==> units.contains(number@[j]),
                !known ==> !all_units(units, number@),
        {
            if known {
                match place_of(&mapping, c) {
                    Some(place) => {
                        places.push(place as u64);
                    },
                    None => {
                        known = false;
                    },
                }
            }
        }
        if !known {
            return None;
        }
        if places.len() == 0 {
            places.push(0);
        }
        assert(number@.len() > 0 ==> places@ =~= crate::places::parsed(units, number@));
        Some(Digits { mapping, places })
    }
}

impl Digits {
    /// The number whose digits are the units of the text that `number` turns
    /// into; the empty text gives zero. The alphabet has to be intact and
    /// every character of the text a unit of it: [`Digits::try_new`] is the
    /// same without these demands.
    pub fn new<S: Into<String>>(mapping: BaseCustom<char>, number: S) -> (r: Digits)
        requires
            alphabet_intact(mapping),
            forall|text: String| #[trigger]
                number.turns_into(text) ==> all_units(alphabet_units(mapping), text@),
        ensures
            r.wf(),
            r@.units == alphabet_units(mapping),
            exists|text: String| #[trigger]
                number.turns_into(text) && r@.places == read(alphabet_units(mapping), text@),
    {
        let text = number.into();
        Digits::try_new(mapping, text.as_str()).unwrap()
    }

    /// Zero in the given alphabet, which has to be intact: the single digit 0.
    pub fn new_zero(mapping: BaseCustom<char>) -> (r: Digits)
        requires
            alphabet_intact(mapping),
        ensures
            r.wf(),
            r@.units == alphabet_units(mapping),
            r@.places == seq![0u64],
    {
        let mut places: Vec<u64> = Vec::new();
        places.push(0);
        assert(places@ =~= seq![0u64]);
        Digits { mapping, places }
    }

    /// One in the given alphabet, which has to be intact: the single digit 1.
    /// An alphabet of a single unit has no digit 1.
    pub fn new_one(mapping: BaseCustom<char>) -> (r: Digits)
        requires
            alphabet_intact(mapping),
            alphabet_units(mapping).len() >= 2,
        ensures
            r.wf(),
            r@.units == alphabet_units(mapping),
            r@.places == seq![1u64],
    {
        let mut places: Vec<u64> = Vec::new();
        places.push(1);
        assert(places@ =~= seq![1u64]);
        Digits { mapping, places }
    }

    /// Zero in the alphabet of this number.
    pub fn zero(&self) -> (r: Digits)
        ensures
            r.wf(),
            r@.units == self@.units,
            r@.places == seq![0u64],
    {
        Digits::new_zero(self.mapping())
    }

    /// One in the alphabet of this number.
    pub fn one(&self) -> (r: Digits)
        requires
            self@.base() >= 2,
        ensures
            r.wf(),
            r@.units == self@.units,
            r@.places == seq![1u64],
    {
        Digits::new_one(self.mapping())
    }

    /// The number whose digits are the units of the text, in the alphabet of
    /// this number.
    pub fn propagate<S: Into<String>>(&self, number: S) -> (r: Digits)
        requires
            forall|text: String| #[trigger]
                number.turns_into(text) ==> all_units(self@.units, text@),
        ensures
            r.wf(),
            r@.units == self@.units,
            exists|text: String| #[trigger]
                number.turns_into(text) && r@.places == read(self@.units, text@),
    {
        Digits::new(self.mapping(), number)
    }

    /// The number with the given digits, most significant first, in the
    /// alphabet of this number; no digits give zero. A digit that is no place
    /// value of the alphabet is refused.
    pub fn new_mapped(&self, places: &[u64]) -> (r: Result<Digits, &'static str>)
        ensures
            r is Ok <==> in_range(self@.base(), places@),
            r matches Ok(d) ==> {
                &&& d.wf()
                &&& d@.units == self@.units
                &&& d@.places == (if places@.len() == 0 {
                    seq![0u64]
                } else {
                    places@
                })
            },
            r matches Err(e) ==> e@ == "Character mapping out of range!"@,
    {
        proof {
            use_type_invariant(self);
        }
        let base = self.radix();
        let mut kept: Vec<u64> = Vec::new();
        let mut i: usize = 0;
        while i < places.len()
            invariant
                base == self@.base(),
                i <= places@.len(),
                kept@ == places@.take(i as int),
                in_range(base as nat, kept@),
            decreases places@.len() - i,
        {
            let place = places[i];
            if place >= base {
                assert(places@[i as int] >= base);
                return Err("Character mapping out of range!");
            }
            kept.push(place);
            assert(kept@ =~= places@.take(i + 1));
            i += 1;
        }
        assert(kept@ =~= places@);
        if kept.len() == 0 {
            kept.push(0);
            assert(kept@ =~= seq![0u64]);
        }
        Ok(Digits { mapping: alphabet_copy(&self.mapping), places: kept })
    }

    /// The digits, most significant first.
    pub fn as_mapping_vec(&self) -> (r: Vec<u64>)
        ensures
            r@ == self@.places,
    {
        copy_of(&self.places)
    }

    /// The size of the alphabet.
    pub fn base(&self) -> (r: usize)
        ensures
            r == self@.base(),
            1 <= r <= 255,
    {
        self.radix() as usize
    }

    /// The number of digits.
    pub fn length(&self) -> (r: usize)
        ensures
            r == self@.places.len(),
            r >= 1,
    {
        proof {
            use_type_invariant(self);
        }
        self.places.len()
    }

    /// Whether the two numbers are written in the same alphabet: the same
    /// units in the same order.
    pub fn is_compat(&self, other: &Digits) -> (r: bool)
        ensures
            r == (self@.units == other@.units),
    {
        proof {
            use_type_invariant(self);
            use_type_invariant(other);
        }
        same_alphabet(&self.mapping, &other.mapping)
    }

    /// This number, handed on as it is.
    pub fn replicate(self) -> (r: Digits)
        ensures
            r@ == self@,
            r.wf(),
    {
        proof {
            use_type_invariant(&self);
        }
        self
    }

    /// The unit of the least significant digit.
    pub fn pinky(&self) -> (c: char)
        ensures
            c == self@.units[self@.places.last() as int],
    {
        proof {
            use_type_invariant(self);
        }
        let last = self.places[self.places.len() - 1];
        unit_at(&self.mapping, last as usize).unwrap()
    }

    /// The digits spelled in the alphabet, most significant first.
    pub fn to_s(&self) -> (text: String)
        ensures
            text@ == self@.text(),
    {
        proof {
            use_type_invariant(self);
        }
        let mut text = String::new();
        let mut i: usize = 0;
        while i < self.places.len()
            invariant
                self.wf(),
                i <= self.places@.len(),
                text@ == self@.text().take(i as int),
            decreases self.places@.len() - i,
        {
            let c = unit_at(&self.mapping, self.places[i] as usize).unwrap();
            text.push(c);
            assert(text@ =~= self@.text().take(i + 1));
            i += 1;
        }
        assert(text@ =~= self@.text());
        text
    }

    /// The digits spelled in the alphabet, as [`Digits::to_s`] gives them.
    pub fn to_string(&self) -> (text: String)
        ensures
            text@ == self@.text(),
    {
        self.to_s()
    }

    /// Whether the number is zero: every digit is 0.
    pub fn is_zero(&self) -> (r: bool)
        ensures
            r == (self@.value() == 0),
    {
        proof {
            use_type_invariant(self);
            lemma_value_zero(self@.base(), self@.places);
        }
        let mut i: usize = 0;
        while i < self.places.len()
            invariant
                i <= self.places@.len(),
                forall|j: int| 0 <= j < i ==> self.places@[j] == 0,
                self@.value() == 0 <==> self.places@ =~= zeros(self.places@.len()),
            decreases self.places@.len() - i,
        {
            if self.places[i] != 0 {
                assert(zeros(self.places@.len())[i as int] == 0);
                return false;
            }
            i += 1;
        }
        assert(self.places@ =~= zeros(self.places@.len()));
        true
    }

    /// Whether the number is one: the last digit is 1 and every other is 0.
    pub fn is_one(&self) -> (r: bool)
        ensures
            r == (self@.value() == 1),
    {
        proof {
            use_type_invariant(self);
        }
        let n = self.places.len();
        let ghost base = self@.base();
        let ghost upper = self.places@.drop_last();
        proof {
            lemma_value_zero(base, upper);
            let v = value(base, upper) as int;
            let b = base as int;
            assert(self@.value() == v * b + self.places@.last());
            assert(self.places@.last() < base);
            if v >= 1 {
                assert(v * b >= b) by (nonlinear_arith)
                    requires
                        v >= 1,
                        b >= 1,
                ;
            } else {
                assert(v * b == 0) by (nonlinear_arith)
                    requires
                        v == 0,
                ;
            }
            assert(self@.value() == 1 <==> (upper =~= zeros(upper.len())
                && self.places@.last() == 1));
        }
        if self.places[n - 1] != 1 {
            return false;
        }
        let mut i: usize = 0;
        while i < n - 1
            invariant
                n == self.places@.len(),
                n >= 1,
                i <= n - 1,
                upper == self.places@.drop_last(),
                forall|j: int| 0 <= j < i ==> self.places@[j] == 0,
                self.places@.last() == 1,
                self@.value() == 1 <==> (upper =~= zeros(upper.len())
                    && self.places@.last() == 1),
            decreases n - 1 - i,
        {
            if self.places[i] != 0 {
                assert(zeros(upper.len())[i as int] == 0);
                assert(upper[i as int] == self.places@[i as int]);
                return false;
            }
            i += 1;
        }
        assert(upper =~= zeros(upper.len()));
        true
    }
}

impl Clone for Digits {
    fn clone(&self) -> (r: Digits)
        ensures
            r@ == self@,
            r.wf(),
    {
        proof {
            use_type_invariant(self);
        }
        Digits { mapping: alphabet_copy(&self.mapping), places: copy_of(&self.places) }
    }
}

/// A copy of a vector of digits.
pub(crate) fn copy_of(v: &Vec<u64>) -> (r: Vec<u64>)
    ensures
        r@ == v@,
{
    let mut r: Vec<u64> = Vec::new();
    let mut i: usize = 0;
    while i < v.len()
        invariant
            i <= v@.len(),
            r@ == v@.take(i as int),
        decreases v@.len() - i,
    {
        r.push(v[i]);
        assert(r@ =~= v@.take(i + 1));
        i += 1;
    }
    assert(r@ =~= v@);
    r
}

} // verus!
