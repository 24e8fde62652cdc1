//! Addition of two digit values under a cap, giving a digit and a carry.

use vstd::prelude::*;

verus! {

/// The sign of a [`SignNum`]. The arithmetic of this crate produces `Plus` only.
#[derive(Clone, Copy, Debug)]
pub enum Sign {
    Plus,
    Minus,
}

/// A magnitude together with its sign.
#[derive(Clone, Copy, Debug)]
pub struct SignNum<T> {
    pub num: T,
    pub sign: Sign,
}

impl<T> SignNum<T> where T: Copy {
    /// A positive number of the given magnitude.
    pub fn new(n: T) -> (r: Self)
        ensures
            r.num == n,
            r.sign is Plus,
    {
        SignNum { num: n, sign: Sign::Plus }
    }
}

/// What a capped addition yields: the digit that stays in place and the carry
/// that moves on to the next place, if there is one.
pub struct CarryResult<T> where T: Sized + PartialEq {
    pub sign_num: SignNum<T>,
    pub carry: Option<SignNum<T>>,
}

/// The digit that `a + b` leaves in place under the cap `(0, high)`.
pub open spec fn capped_digit(a: int, b: int, high: int) -> int {
    (a + b) % high
}

/// The carry that `a + b` hands on under the cap `(0, high)`; zero means none.
pub open spec fn capped_carry(a: int, b: int, high: int) -> int {
    (a + b) / high
}

/// Addition of two values whose result is split by a cap into digit and carry.
pub trait CappedAdd<T> where T: Sized + PartialEq, Self: Sized {
    /// The inputs on which `capped_add` is defined.
    spec fn capped_add_defined(&self, other: Self, cap: (T, T)) -> bool;

    /// What `capped_add` returns on them.
    spec fn capped_add_result(&self, other: Self, cap: (T, T), r: CarryResult<T>) -> bool;

    fn capped_add(&self, other: Self, cap: (T, T)) -> (r: CarryResult<T>)
        requires
            self.capped_add_defined(other, cap),
        ensures
            self.capped_add_result(other, cap, r),
    ;
}

/// The digit and the carry of `a + b` under the cap `(0, high)`, both positive,
/// the carry absent exactly when it is zero.
pub open spec fn is_capped_sum(a: u64, b: u64, high: u64, r: CarryResult<u64>) -> bool {
    &&& r.sign_num.sign is Plus
    &&& r.sign_num.num == capped_digit(a as int, b as int, high as int)
    &&& r.sign_num.num < high
    &&& match r.carry {
        Some(c) => c.sign is Plus && c.num != 0 && c.num == capped_carry(
            a as int,
            b as int,
            high as int,
        ),
        None => capped_carry(a as int, b as int, high as int) == 0,
    }
}

impl CappedAdd<u64> for SignNum<u64> {
    /// Both operands are positive, the cap runs from zero to a positive bound,
    /// and the sum fits the machine word.
    open spec fn capped_add_defined(&self, other: Self, cap: (u64, u64)) -> bool {
        &&& self.sign is Plus
        &&& other.sign is Plus
        &&& cap.0 == 0
        &&& cap.1 > 0
        &&& self.num + other.num <= u64::MAX
    }

    open spec fn capped_add_result(
        &self,
        other: Self,
        cap: (u64, u64),
        r: CarryResult<u64>,
    ) -> bool {
        is_capped_sum(self.num, other.num, cap.1, r)
    }

    fn capped_add(&self, other: Self, cap: (u64, u64)) -> (r: CarryResult<u64>) {
        let added: u64 = self.num + other.num;
        let carry = SignNum::new(added / cap.1);
        let num = SignNum::new(added % cap.1);
        CarryResult {
            sign_num: num,
            carry: if carry.num == 0 {
                None
            } else {
                Some(carry)
            },
        }
    }
}

impl CappedAdd<u64> for u64 {
    open spec fn capped_add_defined(&self, other: Self, cap: (u64, u64)) -> bool {
        &&& cap.0 == 0
        &&& cap.1 > 0
        &&& *self + other <= u64::MAX
    }

    open spec fn capped_add_result(
        &self,
        other: Self,
        cap: (u64, u64),
        r: CarryResult<u64>,
    ) -> bool {
        is_capped_sum(*self, other, cap.1, r)
    }

    fn capped_add(&self, other: Self, cap: (u64, u64)) -> (r: CarryResult<u64>) {
        SignNum::new(*self).capped_add(SignNum::new(other), cap)
    }
}

} // verus!
