//! Numbers from plain integers and from numbers of another alphabet, and
//! numbers as text.

use crate::alphabet::{alphabet_intact, alphabet_units, written};
use crate::digits::{Digits, DigitsView};
use crate::places::{canonical, lemma_canonical, parsed};
use crate::radices::{decimal_base, decimal_units};
use base_custom::BaseCustom;
use vstd::prelude::*;

verus! {

/// A value that can be turned into another, as `Digits` and `String` can be
/// turned into a `String`.
pub trait Into<T> {
    /// What `into` may give for this value.
    spec fn turns_into(&self, r: T) -> bool;

    fn into(self) -> (r: T)
        ensures
            self.turns_into(r),
    ;
}

impl Into<String> for String {
    /// A text gives itself.
    open spec fn turns_into(&self, r: String) -> bool {
        r@ == self@
    }

    fn into(self) -> (r: String) {
        self
    }
}

impl Into<String> for Digits {
    /// A number gives its digits spelled in its alphabet.
    open spec fn turns_into(&self, r: String) -> bool {
        r@ == self@.text()
    }

    fn into(self) -> (r: String) {
        self.to_s()
    }
}

/// What a conversion gives where it is handed an alphabet that is not intact:
/// zero in the decimal alphabet.
pub open spec fn stand_in() -> DigitsView {
    DigitsView { units: decimal_units(), places: seq![0u64] }
}

impl From<(BaseCustom<char>, u64)> for Digits {
    /// The number written in the alphabet, without leading zeros. An alphabet
    /// that is not intact gives the [stand-in](stand_in).
    fn from(d: (BaseCustom<char>, u64)) -> (r: Digits)
        ensures
            r.wf(),
            alphabet_intact(d.0) ==> {
                &&& r@.units == alphabet_units(d.0)
                &&& r@.places == canonical(alphabet_units(d.0).len(), d.1 as nat)
            },
            !alphabet_intact(d.0) ==> r@ == stand_in(),
    {
        let (mapping, number) = d;
        let ghost units = alphabet_units(mapping);
        let size = match Digits::alphabet_size(&mapping) {
            Some(size) => size,
            None => {
                return Digits::new_zero(decimal_base());
            },
        };
        if size < 2 && number != 0 {
            return Digits::new_zero(mapping);
        }
        let text = written(&mapping, number);
        proof {
            let places = canonical(units.len(), number as nat);
            lemma_canonical(units.len(), number as nat);
            assert forall|i: int| 0 <= i < text@.len() implies units.contains(
                #[trigger] text@[i],
            ) by {
                assert(units[places[i] as int] == text@[i]);
            }
            assert(parsed(units, text@) =~= places) by {
                assert forall|i: int| 0 <= i < places.len() implies parsed(units, text@)[i]
                    == places[i] by {
                    let c = units[places[i] as int];
                    assert(units.contains(c));
                    assert(units[units.index_of(c)] == c);
                }
            }
        }
        let r = Digits::new(mapping, text);
        assert(r@.places == crate::places::read(units, text@));
        r
    }
}

/// What the conversion gives is stated at `from` itself.
impl vstd::std_specs::convert::FromSpecImpl<(BaseCustom<char>, u64)> for Digits {
    open spec fn obeys_from_spec() -> bool {
        false
    }

    open spec fn from_spec(d: (BaseCustom<char>, u64)) -> Digits {
        arbitrary()
    }
}

impl From<(BaseCustom<char>, Digits)> for Digits {
    /// The number written in the alphabet: as it is where that is its own
    /// alphabet, and without leading zeros in any other. An alphabet that is
    /// not intact gives the [stand-in](stand_in).
    fn from(d: (BaseCustom<char>, Digits)) -> (r: Digits)
        ensures
            r.wf(),
            alphabet_intact(d.0) ==> r@ == d.1@.rebased(alphabet_units(d.0)),
            !alphabet_intact(d.0) ==> r@ == stand_in(),
    {
        let (mapping, source) = d;
        if Digits::alphabet_size(&mapping).is_none() {
            return Digits::new_zero(decimal_base());
        }
        let target = Digits::new_zero(mapping);
        if target.is_compat(&source) || target.base() >= 2 || source.is_zero() {
            Digits::rebase(target.mapping(), source)
        } else {
            target
        }
    }
}

/// What the conversion gives is stated at `from` itself.
impl vstd::std_specs::convert::FromSpecImpl<(BaseCustom<char>, Digits)> for Digits {
    open spec fn obeys_from_spec() -> bool {
        false
    }

    open spec fn from_spec(d: (BaseCustom<char>, Digits)) -> Digits {
        arbitrary()
    }
}

impl From<(Digits, Digits)> for Digits {
    /// The second number written in the alphabet of the first.
    fn from(d: (Digits, Digits)) -> (r: Digits)
        ensures
            r.wf(),
            r@ == d.1@.rebased(d.0@.units),
    {
        let (model, source) = d;
        Digits::from((model.mapping(), source))
    }
}

/// What the conversion gives is stated at `from` itself.
impl vstd::std_specs::convert::FromSpecImpl<(Digits, Digits)> for Digits {
    open spec fn obeys_from_spec() -> bool {
        false
    }

    open spec fn from_spec(d: (Digits, Digits)) -> Digits {
        arbitrary()
    }
}

impl From<Digits> for String {
    /// The digits spelled in the alphabet of the number.
    fn from(d: Digits) -> (r: String)
        ensures
            r@ == d@.text(),
    {
        d.to_s()
    }
}

/// What the conversion gives is stated at `from` itself.
impl vstd::std_specs::convert::FromSpecImpl<Digits> for String {
    open spec fn obeys_from_spec() -> bool {
        false
    }

    open spec fn from_spec(d: Digits) -> String {
        arbitrary()
    }
}

impl Digits {
    /// A number in the alphabet of this one, from whatever a number can be
    /// made of together with an alphabet: a `u64` or another number.
    pub fn gen<T>(&self, other: T) -> (r: Digits) where Digits: From<(BaseCustom<char>, T)>
        ensures
            exists|m: BaseCustom<char>|
                alphabet_intact(m) && alphabet_units(m) == self@.units && call_ensures(
                    <Digits as From<(BaseCustom<char>, T)>>::from,
                    ((m, other),),
                    r,
                ),
    {
        Digits::from((self.mapping(), other))
    }
}

} // verus!
