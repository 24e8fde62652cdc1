//! The operators `+`, `*` and `^` on numbers, and their assigning forms.
//!
//! `a + b` adds as [`Digits::mut_add`] does and keeps the length of `a`;
//! `a * b` multiplies as [`Digits::mul`] does; `a ^ b` is `a` to the power of
//! `b` as [`Digits::pow`] returns it.

use crate::digits::Digits;
use vstd::prelude::*;

verus! {

impl core::ops::Add for Digits {
    type Output = Digits;

    fn add(self, other: Digits) -> (r: Digits)
        ensures
            r.wf(),
            r@ == self@.grown_by(other@),
    {
        let mut sum = self;
        sum.mut_add(other)
    }
}

/// What `+` asks of its operands. What it gives is stated at the operator
/// itself.
impl vstd::std_specs::ops::AddSpecImpl for Digits {
    open spec fn obeys_add_spec() -> bool {
        false
    }

    open spec fn add_req(self, other: Digits) -> bool {
        self@.can_adopt(other@)
    }

    open spec fn add_spec(self, other: Digits) -> Digits {
        self
    }
}

impl core::ops::AddAssign for Digits {
    fn add_assign(&mut self, other: Digits)
        requires
            old(self)@.can_adopt(other@),
        ensures
            final(self).wf(),
            final(self)@ == old(self)@.grown_by(other@),
    {
        self.mut_add(other);
    }
}

impl core::ops::Mul for Digits {
    type Output = Digits;

    fn mul(self, other: Digits) -> (r: Digits)
        ensures
            r.wf(),
            r@ == self@.times(other@),
    {
        Digits::mul(&self, other)
    }
}

/// What `*` asks of its operands. What it gives is stated at the operator
/// itself.
impl vstd::std_specs::ops::MulSpecImpl for Digits {
    open spec fn obeys_mul_spec() -> bool {
        false
    }

    open spec fn mul_req(self, other: Digits) -> bool {
        self@.can_adopt(other@)
    }

    open spec fn mul_spec(self, other: Digits) -> Digits {
        self
    }
}

impl core::ops::MulAssign for Digits {
    fn mul_assign(&mut self, other: Digits)
        requires
            old(self)@.can_adopt(other@),
        ensures
            final(self).wf(),
            final(self)@ == old(self)@.times(other@),
    {
        self.mut_mul(other);
    }
}

impl core::ops::BitXor for Digits {
    type Output = Digits;

    fn bitxor(self, other: Digits) -> (r: Digits)
        ensures
            r.wf(),
            r@ == self@.power(other@.value()),
    {
        let mut power = self;
        power.pow(other)
    }
}

/// What `^` asks of its operands. What it gives is stated at the operator
/// itself.
impl vstd::std_specs::ops::BitXorSpecImpl for Digits {
    open spec fn obeys_bitxor_spec() -> bool {
        false
    }

    open spec fn bitxor_req(self, other: Digits) -> bool {
        other@.value() == 0 ==> self@.base() >= 2
    }

    open spec fn bitxor_spec(self, other: Digits) -> Digits {
        self
    }
}

impl core::ops::BitXorAssign for Digits {
    fn bitxor_assign(&mut self, other: Digits)
        requires
            other@.value() == 0 ==> old(self)@.base() >= 2,
        ensures
            final(self).wf(),
            final(self)@ == (if other@.value() == 0 {
                old(self)@
            } else {
                old(self)@.power(other@.value())
            }),
    {
        self.pow(other);
    }
}

} // verus!
