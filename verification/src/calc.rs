//! Arithmetic on numbers: sums, products, powers, the number before and the
//! number after, and the change from one alphabet to another.

use crate::alphabet::{alphabet_intact, alphabet_units};
use crate::arith::{add_places, convert_places, fit, mul_places, pad_to, pred_places};
use crate::digits::{copy_of, Digits, DigitsView};
use crate::places::{
    canonical, fitted, in_range, lemma_canonical, lemma_value_padded, longest, padded, value,
};
use base_custom::BaseCustom;
use vstd::arithmetic::power::{lemma_pow1, lemma_pow_adds, pow};
use vstd::prelude::*;

verus! {

impl DigitsView {
    /// Whether `other` can be written in the alphabet of this number: it is
    /// written in it already, or the alphabet has two units or more, or
    /// `other` is zero.
    pub open spec fn can_adopt(self, other: DigitsView) -> bool {
        self.units == other.units || self.base() >= 2 || other.value() == 0
    }

    /// The digits of `other` in the alphabet of this number: its own digits
    /// where it is written in that alphabet, and else the digits of its value
    /// without leading zeros.
    pub open spec fn adopted(self, other: DigitsView) -> Seq<u64> {
        if self.units == other.units {
            other.places
        } else {
            canonical(self.base(), other.value())
        }
    }

    /// The number with the given digits in the alphabet of this one.
    pub open spec fn with(self, places: Seq<u64>) -> DigitsView {
        DigitsView { units: self.units, places }
    }

    /// This number written in the alphabet of the given units: as it is where
    /// that is its own alphabet, and without leading zeros in any other.
    pub open spec fn rebased(self, units: Seq<char>) -> DigitsView {
        DigitsView {
            units,
            places: if units == self.units {
                self.places
            } else {
                canonical(units.len(), self.value())
            },
        }
    }

    /// The sum of this number and the other, with as many digits as the longer
    /// of the two has, and one more where the sum needs it.
    pub open spec fn plus(self, other: DigitsView) -> DigitsView {
        self.with(
            fitted(
                self.base(),
                self.value() + other.value(),
                longest(self.places.len(), self.adopted(other).len()),
            ),
        )
    }

    /// The sum of this number and the other with the length of this number,
    /// and with more digits only where the sum needs them.
    pub open spec fn grown_by(self, other: DigitsView) -> DigitsView {
        self.with(fitted(self.base(), self.value() + other.value(), self.places.len()))
    }

    /// The product of this number and the other, without leading zeros.
    pub open spec fn times(self, other: DigitsView) -> DigitsView {
        self.with(canonical(self.base(), self.value() * other.value()))
    }

    /// The number after this one, with the length of this one and one digit
    /// more where it needs it.
    pub open spec fn after(self) -> DigitsView {
        self.with(fitted(self.base(), self.value() + 1, self.places.len()))
    }

    /// The number before this one, with the length of this one; zero has none
    /// before it and stays.
    pub open spec fn before(self) -> DigitsView {
        if self.value() == 0 {
            self
        } else {
            self.with(fitted(self.base(), (self.value() - 1) as nat, self.places.len()))
        }
    }

    /// This number to the power of `e`: one for power zero, the number as it
    /// is for power one, and the power without leading zeros above that.
    pub open spec fn power(self, e: nat) -> DigitsView {
        if e == 0 {
            self.with(seq![1u64])
        } else if e == 1 {
            self
        } else {
            self.with(canonical(self.base(), pow(self.value() as int, e) as nat))
        }
    }
}

impl Digits {
    /// The digits of `other` as the alphabet of this number holds them.
    fn adopt(&self, other: &Digits) -> (r: Vec<u64>)
        requires
            self@.can_adopt(other@),
        ensures
            r@ == self@.adopted(other@),
            r@.len() >= 1,
            in_range(self@.base(), r@),
            value(self@.base(), r@) == other@.value(),
    {
        if self.is_compat(other) {
            copy_of(other.places_ref())
        } else {
            convert_places(other.places_ref(), other.radix(), self.radix())
        }
    }

    /// The number written in another alphabet, which has to be intact. In its
    /// own alphabet the number stays as it is, leading zeros included; in
    /// another it has the digits of its value without leading zeros.
    pub fn rebase(mapping: BaseCustom<char>, source: Digits) -> (r: Digits)
        requires
            alphabet_intact(mapping),
            alphabet_units(mapping) == source@.units || alphabet_units(mapping).len() >= 2
                || source@.value() == 0,
        ensures
            r.wf(),
            r@ == source@.rebased(alphabet_units(mapping)),
            r@.value() == source@.value(),
    {
        let target = Digits::new_zero(mapping);
        let places = target.adopt(&source);
        target.with_places(places)
    }

    /// The sum of the two numbers, with as many digits as the longer of the
    /// two has, and one more where the sum needs it. A number in another
    /// alphabet is first written in the alphabet of this one.
    pub fn add(&self, other: Digits) -> (r: Digits)
        requires
            self@.can_adopt(other@),
        ensures
            r.wf(),
            r@ == self@.plus(other@),
            r@.value() == self@.value() + other@.value(),
    {
        let theirs = self.adopt(&other);
        let sum = add_places(self.places_ref(), &theirs, self.radix());
        self.with_places(sum)
    }

    /// Adds the other number to this one and keeps the length of this one,
    /// with more digits only where the sum needs them; returns a copy of the
    /// sum. A number in another alphabet is first written in the alphabet of
    /// this one.
    pub fn mut_add(&mut self, other: Digits) -> (r: Digits)
        requires
            old(self)@.can_adopt(other@),
        ensures
            final(self).wf(),
            final(self)@ == old(self)@.grown_by(other@),
            final(self)@.value() == old(self)@.value() + other@.value(),
            r@ == final(self)@,
            r.wf(),
    {
        let theirs = self.adopt(&other);
        let base = self.radix();
        let len = self.length();
        let sum = add_places(self.places_ref(), &theirs, base);
        let kept = fit(&sum, len, base);
        self.set_places(kept);
        self.clone()
    }

    /// The product of the two numbers, without leading zeros. A number in
    /// another alphabet is first written in the alphabet of this one.
    pub fn mul(&self, other: Digits) -> (r: Digits)
        requires
            self@.can_adopt(other@),
        ensures
            r.wf(),
            r@ == self@.times(other@),
            r@.value() == self@.value() * other@.value(),
    {
        let theirs = self.adopt(&other);
        let product = mul_places(self.places_ref(), &theirs, self.radix());
        self.with_places(product)
    }

    /// Multiplies this number by the other and returns a copy of the product,
    /// which has no leading zeros.
    pub fn mut_mul(&mut self, other: Digits) -> (r: Digits)
        requires
            old(self)@.can_adopt(other@),
        ensures
            final(self).wf(),
            final(self)@ == old(self)@.times(other@),
            final(self)@.value() == old(self)@.value() * other@.value(),
            r@ == final(self)@,
            r.wf(),
    {
        let theirs = self.adopt(&other);
        let product = mul_places(self.places_ref(), &theirs, self.radix());
        self.set_places(product);
        self.clone()
    }

    /// The number after this one, in place and as a copy: one more, with the
    /// length kept unless the sum needs one digit more.
    pub fn succ(&mut self) -> (r: Digits)
        requires
            old(self)@.base() >= 2,
        ensures
            final(self).wf(),
            final(self)@ == old(self)@.after(),
            final(self)@.value() == old(self)@.value() + 1,
            r@ == final(self)@,
            r.wf(),
    {
        let one = self.one();
        proof {
            crate::places::lemma_value_single(self@.base(), 1u64);
        }
        self.mut_add(one)
    }

    /// The number before this one, in place and as a copy: one less with the
    /// length kept, and zero where this number is zero.
    pub fn pred_till_zero(&mut self) -> (r: Digits)
        ensures
            final(self).wf(),
            final(self)@ == old(self)@.before(),
            final(self)@.value() == (if old(self)@.value() == 0 {
                0
            } else {
                old(self)@.value() - 1
            }),
            r@ == final(self)@,
            r.wf(),
    {
        let base = self.radix();
        let less = pred_places(self.places_ref(), base);
        proof {
            let v = self@.value();
            if v != 0 {
                if base >= 2 {
                    lemma_canonical(base as nat, (v - 1) as nat);
                } else {
                    crate::places::lemma_value_zero(base as nat, self@.places);
                }
                lemma_value_padded(
                    base as nat,
                    canonical(base as nat, (v - 1) as nat),
                    self@.places.len(),
                );
            }
        }
        self.set_places(less);
        self.clone()
    }

    /// This number to the power of the other. Power zero leaves this number as
    /// it is and returns one; power one leaves it as it is and returns a copy;
    /// a higher power puts the result in place, without leading zeros, and
    /// returns a copy of it.
    pub fn pow(&mut self, pwr: Digits) -> (r: Digits)
        requires
            pwr@.value() == 0 ==> old(self)@.base() >= 2,
        ensures
            final(self).wf(),
            final(self)@ == (if pwr@.value() == 0 {
                old(self)@
            } else {
                old(self)@.power(pwr@.value())
            }),
            r.wf(),
            r@ == old(self)@.power(pwr@.value()),
    {
        proof {
            use_type_invariant(&*self);
        }
        if pwr.is_zero() {
            return self.one();
        }
        let copy = self.clone();
        let mut left = pwr;
        let ghost start = self@;
        let ghost whole = left@.value();
        let ghost v = start.value() as int;
        let ghost done: nat = 1;
        proof {
            lemma_pow1(v);
        }
        while !left.is_one()
            invariant
                self.wf(),
                copy@ == start,
                self@.units == start.units,
                v == start.value(),
                left@.value() >= 1,
                done >= 1,
                left@.value() + done == whole + 1,
                self@.value() == pow(v, done),
                self@.places == (if done == 1 {
                    start.places
                } else {
                    canonical(start.base(), pow(v, done) as nat)
                }),
            decreases left@.value(),
        {
            proof {
                lemma_pow1(v);
                lemma_pow_adds(v, done, 1);
            }
            self.mut_mul(copy.clone());
            left.pred_till_zero();
            proof {
                done = done + 1;
            }
        }
        self.clone()
    }

    /// Puts zeros in front until the number has `length` digits; a number
    /// that has as many or more stays as it is.
    pub fn zero_fill(&mut self, length: usize)
        ensures
            final(self).wf(),
            final(self)@ == old(self)@.with(padded(old(self)@.places, length as nat)),
    {
        let filled = pad_to(self.places_ref(), length);
        proof {
            lemma_value_padded(self@.base(), self@.places, length as nat);
        }
        self.set_places(filled);
    }

    /// Takes the leading zeros away; zero keeps its single digit.
    pub fn zero_trim(&mut self)
        ensures
            final(self).wf(),
            final(self)@ == old(self)@.with(canonical(old(self)@.base(), old(self)@.value())),
    {
        let trimmed = fit(self.places_ref(), 1, self.radix());
        proof {
            let c = canonical(self@.base(), self@.value());
            crate::places::lemma_fitted_unique(self@.base(), self@.places);
            if self@.base() >= 2 {
                lemma_canonical(self@.base(), self@.value());
            } else {
                crate::places::lemma_value_zero(self@.base(), self@.places);
            }
            assert(padded(c, 1) == c);
        }
        self.set_places(trimmed);
    }
}

} // verus!
